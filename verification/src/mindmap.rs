//! Clue maps of a book's cards: a model proposes summary nodes, and the
//! cards hang on them as evidence. This module holds what is decided
//! around the model: the cache key, the lines and prompts sent, the plan
//! that splits a large book, the cleaning of what comes back, and the state
//! of a chapter-by-chapter run. Model calls, JSON parsing and the cache file
//! live in the application.
use vstd::prelude::*;
use crate::ai::{fnv1a64, fnv_hex, in_ids, join_ids, kind_label, kind_label_of, last_with_id, push_joined_ids};
use crate::db::{CardRow, same_card};
use crate::order::{
    is_stable_sort, key_value, lemma_lex_total_ordering, lex_le, sort_texts, stable_sort_cards, views_of, Key3,
};
use crate::text::{
    chars_of, dec, dec_int, is_ws, owned, prefix, prefix_chars, push_chars, push_dec_i64, push_dec_usize,
    push_str, same_text, starts_with, has_prefix, string_is, string_of, text_is, trim, trimmed,
};

verus! {

pub const PROMPT_VERSION: &'static str = "mindmap-theme-v3";

/// A failure of clue generation, with the message shown to the user.
#[derive(Debug)]
pub enum MindmapError {
    Msg(String),
}

pub type MindmapResult<T> = Result<T, MindmapError>;

impl MindmapError {
    /// The message shown to the user.
    pub fn message(&self) -> (r: String)
        ensures
            match self {
                MindmapError::Msg(m) => r@ == m@,
            },
    {
        match self {
            MindmapError::Msg(m) => m.clone(),
        }
    }
}

#[derive(Debug, PartialEq)]
pub struct Mindmap {
    pub book_id: i64,
    pub title: String,
    pub mode: String,
    pub input_hash: String,
    pub prompt_version: String,
    pub stats: MindmapStats,
    pub root: MindmapNode,
    pub warnings: Vec<String>,
}

#[derive(Debug, Clone, Copy, PartialEq, Eq, Structural)]
pub struct MindmapStats {
    pub cards: i64,
    pub chapters: i64,
    pub themes: i64,
    pub unplaced: i64,
}

#[derive(Debug, PartialEq)]
pub struct MindmapNode {
    pub id: String,
    pub label: String,
    pub kind: String,
    pub summary: Option<String>,
    pub source_card_ids: Vec<i64>,
    pub children: Vec<MindmapNode>,
}

#[derive(Debug)]
pub struct MindmapStatus {
    pub available: bool,
    pub provider_off: bool,
    pub card_count: i64,
    pub cached: Option<Mindmap>,
    pub stale: bool,
    /// Where generation posts to; absent when no model is set up.
    pub chat_endpoint: Option<String>,
    pub model: Option<String>,
}

#[derive(Debug, Clone)]
pub struct MindmapEvent {
    pub stage: String,
    pub current: i64,
    pub total: i64,
    pub title: String,
    pub message: String,
}

/// A node as plain values: what the contracts speak of.
pub struct NodeView {
    pub id: Seq<char>,
    pub label: Seq<char>,
    pub kind: Seq<char>,
    pub summary: Option<Seq<char>>,
    pub ids: Seq<i64>,
    pub children: Seq<NodeView>,
}

pub open spec fn opt_text(o: Option<String>) -> Option<Seq<char>> {
    match o {
        Some(s) => Some(s@),
        None => None,
    }
}

pub open spec fn blank_view() -> NodeView {
    NodeView {
        id: Seq::empty(),
        label: Seq::empty(),
        kind: Seq::empty(),
        summary: None,
        ids: Seq::empty(),
        children: Seq::empty(),
    }
}

pub open spec fn node_view(n: MindmapNode) -> NodeView
    decreases n,
{
    NodeView {
        id: n.id@,
        label: n.label@,
        kind: n.kind@,
        summary: opt_text(n.summary),
        ids: n.source_card_ids@,
        children: Seq::new(
            n.children@.len(),
            |i: int|
                if 0 <= i < n.children@.len() {
                    node_view(n.children@[i])
                } else {
                    blank_view()
                },
        ),
    }
}

pub open spec fn nodes_view(s: Seq<MindmapNode>) -> Seq<NodeView> {
    Seq::new(s.len(), |i: int| node_view(s[i]))
}

pub proof fn lemma_children_view(n: MindmapNode)
    ensures
        node_view(n).children == nodes_view(n.children@),
{
    assert(node_view(n).children =~= nodes_view(n.children@));
}

pub open spec fn strings_view(s: Seq<String>) -> Seq<Seq<char>> {
    s.map_values(|x: String| x@)
}

/// The parts joined with `sep` between them.
pub open spec fn join_with(parts: Seq<Seq<char>>, sep: Seq<char>) -> Seq<char>
    decreases parts.len(),
{
    if parts.len() == 0 {
        Seq::empty()
    } else if parts.len() == 1 {
        parts[0]
    } else {
        join_with(parts.drop_last(), sep) + sep + parts.last()
    }
}

fn push_joined(out: &mut Vec<char>, parts: &Vec<Vec<char>>, sep: &str)
    ensures
        final(out)@ == old(out)@ + join_with(views_of(parts@), sep@),
{
    let ghost start = out@;
    let mut i: usize = 0;
    while i < parts.len()
        invariant
            i <= parts@.len(),
            out@ == start + join_with(views_of(parts@).take(i as int), sep@),
        decreases parts@.len() - i,
    {
        proof {
            assert(views_of(parts@).take(i + 1).drop_last() =~= views_of(parts@).take(i as int));
        }
        if i > 0 {
            push_str(out, sep);
        }
        push_chars(out, &parts[i]);
        i = i + 1;
        proof {
            if i == 1 {
                assert(views_of(parts@).take(0) =~= Seq::<Seq<char>>::empty());
            }
            assert(out@ =~= start + join_with(views_of(parts@).take(i as int), sep@));
        }
    }
    assert(views_of(parts@).take(parts@.len() as int) =~= views_of(parts@));
}

fn push_joined_strings(out: &mut Vec<char>, parts: &[String], sep: &str)
    ensures
        final(out)@ == old(out)@ + join_with(strings_view(parts@), sep@),
{
    let ghost start = out@;
    let mut i: usize = 0;
    while i < parts.len()
        invariant
            i <= parts@.len(),
            out@ == start + join_with(strings_view(parts@).take(i as int), sep@),
        decreases parts@.len() - i,
    {
        proof {
            assert(strings_view(parts@).take(i + 1).drop_last() =~= strings_view(parts@).take(i as int));
        }
        if i > 0 {
            push_str(out, sep);
        }
        push_str(out, parts[i].as_str());
        i = i + 1;
        proof {
            if i == 1 {
                assert(strings_view(parts@).take(0) =~= Seq::<Seq<char>>::empty());
            }
            assert(out@ =~= start + join_with(strings_view(parts@).take(i as int), sep@));
        }
    }
    assert(strings_view(parts@).take(parts@.len() as int) =~= strings_view(parts@));
}

// ---------- cache key ----------

/// A card's part of the cache key: its id and the time it last changed.
pub open spec fn stamp(c: CardRow) -> Seq<char> {
    dec_int(c.id as int) + ":"@ + dec_int(c.updated_at as int)
}

pub open spec fn stamps(cards: Seq<CardRow>) -> Seq<Seq<char>> {
    cards.map_values(|c: CardRow| stamp(c))
}

/// The hashed text: the stamps in dictionary order, then the prompt
/// version, joined by `|`.
pub open spec fn hash_input(cards: Seq<CardRow>) -> Seq<char> {
    join_with(stamps(cards).sort_by(|a: Seq<char>, b: Seq<char>| lex_le(a, b)).push(PROMPT_VERSION@), "|"@)
}

pub open spec fn input_hash_spec(cards: Seq<CardRow>) -> Seq<char> {
    "v1:"@ + fnv_hex(hash_input(cards))
}

/// The cache key of a book's clue map: it changes when a card is added,
/// removed or edited, or when the prompt changes.
pub fn input_hash(cards: &[CardRow]) -> (r: String)
    ensures
        r@ == input_hash_spec(cards@),
{
    let mut parts: Vec<Vec<char>> = Vec::new();
    let mut i: usize = 0;
    while i < cards.len()
        invariant
            i <= cards@.len(),
            views_of(parts@) == stamps(cards@.take(i as int)),
        decreases cards@.len() - i,
    {
        let mut p: Vec<char> = Vec::new();
        push_dec_i64(&mut p, cards[i].id);
        push_str(&mut p, ":");
        push_dec_i64(&mut p, cards[i].updated_at);
        assert(p@ =~= stamp(cards@[i as int]));
        let ghost old_parts = parts@;
        let ghost pv = p@;
        parts.push(p);
        proof {
            assert(cards@.take(i + 1) =~= cards@.take(i as int).push(cards@[i as int]));
            assert(views_of(parts@) =~= views_of(old_parts).push(pv));
            assert(stamps(cards@.take(i + 1)) =~= stamps(cards@.take(i as int)).push(stamp(cards@[i as int])));
        }
        i = i + 1;
    }
    assert(cards@.take(cards@.len() as int) =~= cards@);
    let mut all = sort_texts(parts);
    let ghost sorted = views_of(all@);
    all.push(chars_of(PROMPT_VERSION));
    assert(views_of(all@) =~= sorted.push(PROMPT_VERSION@));
    let mut joined: Vec<char> = Vec::new();
    push_joined(&mut joined, &all, "|");
    assert(joined@ =~= hash_input(cards@));
    let h = fnv1a64(string_of(&joined).as_str());
    let mut out = chars_of("v1:");
    push_str(&mut out, h.as_str());
    string_of(&out)
}

/// The cache key depends only on which (id, edit time) pairs there are,
/// not on the order of the cards.
pub proof fn lemma_input_hash_order_free(a: Seq<CardRow>, b: Seq<CardRow>)
    requires
        stamps(a).to_multiset() == stamps(b).to_multiset(),
    ensures
        input_hash_spec(a) == input_hash_spec(b),
{
    let leq = |x: Seq<char>, y: Seq<char>| lex_le(x, y);
    lemma_lex_total_ordering();
    stamps(a).lemma_sort_by_ensures(leq);
    stamps(b).lemma_sort_by_ensures(leq);
    vstd::seq_lib::lemma_sorted_unique(stamps(a).sort_by(leq), stamps(b).sort_by(leq), leq);
}

// ---------- card lines ----------

/// The text cut to `max` characters, with `…` when something was cut.
pub open spec fn cut(s: Seq<char>, max: nat) -> Seq<char> {
    if s.len() > max {
        s.take(max as int) + "…"@
    } else {
        s
    }
}

fn truncate_chars(s: &Vec<char>, max: usize) -> (r: Vec<char>)
    ensures
        r@ == cut(s@, max as nat),
{
    if s.len() > max {
        let mut out = prefix_chars(s, max);
        out.push('…');
        proof {
            reveal_strlit("…");
        }
        assert(out@ =~= cut(s@, max as nat));
        out
    } else {
        prefix_chars(s, max)
    }
}

/// The trimmed chapter title, or `未分章` when it is blank.
pub open spec fn chapter_name(t: Option<String>) -> Seq<char> {
    match t {
        Some(s) => if trim(s@).len() > 0 {
            trim(s@)
        } else {
            "未分章"@
        },
        None => "未分章"@,
    }
}

fn chapter_name_of(t: &Option<String>) -> (r: Vec<char>)
    ensures
        r@ == chapter_name(*t),
{
    match t {
        Some(s) => {
            let v = trimmed(s.as_str());
            if v.len() > 0 {
                v
            } else {
                chars_of("未分章")
            }
        },
        None => chars_of("未分章"),
    }
}

/// A card as one prompt line: id, chapter, kind, star, text cut to 72
/// characters, and the trimmed note cut to 40 when there is one.
pub open spec fn card_line(c: CardRow) -> Seq<char> {
    let head = "#"@ + dec_int(c.id as int) + " [章:"@ + chapter_name(c.chapter_title) + "] ["@ + kind_label(c.kind@)
        + "]"@ + (if c.starred {
        " [星]"@
    } else {
        Seq::empty()
    }) + " "@ + cut(c.text@, 72);
    if trim(c.note@).len() > 0 {
        head + " | 注: "@ + cut(trim(c.note@), 40)
    } else {
        head
    }
}

fn card_line_chars(c: &CardRow) -> (r: Vec<char>)
    ensures
        r@ == card_line(*c),
{
    let mut line = chars_of("#");
    push_dec_i64(&mut line, c.id);
    push_str(&mut line, " [章:");
    push_chars(&mut line, &chapter_name_of(&c.chapter_title));
    push_str(&mut line, "] [");
    push_str(&mut line, kind_label_of(&c.kind));
    push_str(&mut line, "]");
    if c.starred {
        push_str(&mut line, " [星]");
    }
    push_str(&mut line, " ");
    push_chars(&mut line, &truncate_chars(&chars_of(c.text.as_str()), 72));
    let note = trimmed(c.note.as_str());
    if note.len() > 0 {
        push_str(&mut line, " | 注: ");
        push_chars(&mut line, &truncate_chars(&note, 40));
    }
    proof {
        if !c.starred {
            assert(line@ =~= card_line(*c));
        }
    }
    line
}

pub fn pack_card_line(c: &CardRow) -> (r: String)
    ensures
        r@ == card_line(*c),
{
    string_of(&card_line_chars(c))
}

// ---------- prompts ----------

pub const SYSTEM_PROMPT: &'static str = "你是编辑，不是作者。只根据用户提供的划线、想法与批注，归纳这本书的「线索」：一张可扫的概要节点图。读者应能不打开证据就看懂自己划过哪几条主线。工作只有三件：聚类、写概要、挂证据。\n\
\n\
只输出一个 JSON 对象，不要 Markdown、不要前言。形状：\n\
{\"root\":{\"id\":\"root\",\"kind\":\"book\",\"label\":\"书名\",\"children\":[{\"id\":\"t1\",\"kind\":\"theme\",\"label\":\"8到24字归纳句\",\"summary\":\"可选，不超过40字\",\"sourceCardIds\":[12,18],\"children\":[]}]}}\n\
\n\
规则：\n\
1. 节点 kind 只能是 book 或 theme。禁止 kind=card。划线、想法只出现在 sourceCardIds，不进树。\n\
2. 根节点 kind=book。children 是一级概要：默认 5 到 12 个；卡少可以更少，但一条划线不能独占一个一级。\n\
3. 一级是扫读主线（跨章同义要合并）。二级可选，每枝最多 3 个，只放子题或分歧。不要第三层。\n\
4. label 必须是 8 到 24 个字的归纳句，不是摘录截断，也不能把「注:」原文贴上去。不得与任何证据正文或批注的前 24 字相同。\n\
5. 每个 theme 至少 2 个 sourceCardIds（整数，来自输入的 #id）。只能用输入里出现过的 id；不要发明卡号。若一行含「同簇 #id」，这些 id 与代表卡同属一簇，必须全部写入该主题的 sourceCardIds。\n\
6. summary 可选，不超过 40 字，必须能被该节点的证据支持。\n\
7. 没出现的论点不要补。不要写作者生平、全书主旨、豆瓣评价或任何库外知识。资料不够就画浅。\n\
8. 同一观点的多条划线合成一个节点。相互冲突的划线分成两个一级，或在同一一级下加两个二级，不要抹平。\n\
9. [星]、[想法]、有「注:」的卡提高成为主题中心和命名的权重，但节点文案仍是归纳。过短金句并入最近主题当证据，不单独占一个概要。";

/// The instructions for a whole-book request. They state what cleaning
/// enforces: book and theme nodes only, 8 to 24 character labels, at least
/// two cited cards, at most two levels.
pub fn system_prompt() -> (r: &'static str)
    ensures
        r@ == SYSTEM_PROMPT@,
{
    SYSTEM_PROMPT
}

pub const CHAPTER_SYSTEM_PROMPT: &'static str = "你是编辑。只根据这一章的划线归纳 2 到 5 个概要节点。不要写其他章，不要补没出现的论点。\n\
只输出 JSON：{\"root\":{\"kind\":\"book\",\"children\":[{\"kind\":\"theme\",\"label\":\"8到24字归纳句\",\"sourceCardIds\":[1,2],\"children\":[]}]}}\n\
禁止 kind=card。每个 theme 至少 2 个 sourceCardIds。有「同簇」的 id 全部挂上。";

pub fn chapter_system_prompt() -> (r: &'static str)
    ensures
        r@ == CHAPTER_SYSTEM_PROMPT@,
{
    CHAPTER_SYSTEM_PROMPT
}

pub const MERGE_SYSTEM_PROMPT: &'static str = "你是编辑。下面是各章已经归纳好的概要，不是划线原文。把它们合并成全书线索：5 到 12 个一级主题。跨章同义合并，分歧保留。\n\
只输出 JSON：{\"root\":{\"kind\":\"book\",\"children\":[{...}]}}\n\
每个 theme 的 sourceCardIds 必须是下列卡号的并集，不要丢 id，不要发明 id，不要把卡号变成树节点。二级每枝最多 3 个。";

pub fn merge_system_prompt() -> (r: &'static str)
    ensures
        r@ == MERGE_SYSTEM_PROMPT@,
{
    MERGE_SYSTEM_PROMPT
}

pub open spec fn user_prompt_spec(title: Seq<char>, lines: Seq<Seq<char>>, source_n: nat) -> Seq<char> {
    let compressed = if lines.len() < source_n {
        "这是 "@ + dec(source_n) + " 条里压缩后的 "@ + dec(lines.len()) + " 簇；「同簇」id 必须全部挂上。\n"@
    } else {
        Seq::empty()
    };
    "书名："@ + title + "\n共 "@ + dec(lines.len()) + " 条（不是全书）。\n"@ + compressed
        + "行格式：#id [章:章名] [划线|想法|自建] [星] 正文 | 注:批注 | 同簇 #id,#id\n只根据这些行归纳线索。请输出 JSON。\n\n"@
        + join_with(lines, "\n"@)
}

/// The whole-book request for the given lines.
pub fn user_prompt(title: &str, lines: &[String]) -> (r: String)
    ensures
        r@ == user_prompt_spec(title@, strings_view(lines@), lines@.len()),
{
    user_prompt_counted(title, lines, lines.len())
}

/// The whole-book request; when the lines stand for more cards than
/// there are lines (`source_n`), it says they were compressed.
pub fn user_prompt_counted(title: &str, lines: &[String], source_n: usize) -> (r: String)
    ensures
        r@ == user_prompt_spec(title@, strings_view(lines@), source_n as nat),
{
    let mut s = chars_of("书名：");
    push_str(&mut s, title);
    push_str(&mut s, "\n共 ");
    push_dec_usize(&mut s, lines.len());
    push_str(&mut s, " 条（不是全书）。\n");
    if lines.len() < source_n {
        push_str(&mut s, "这是 ");
        push_dec_usize(&mut s, source_n);
        push_str(&mut s, " 条里压缩后的 ");
        push_dec_usize(&mut s, lines.len());
        push_str(&mut s, " 簇；「同簇」id 必须全部挂上。\n");
    }
    push_str(
        &mut s,
        "行格式：#id [章:章名] [划线|想法|自建] [星] 正文 | 注:批注 | 同簇 #id,#id\n只根据这些行归纳线索。请输出 JSON。\n\n",
    );
    push_joined_strings(&mut s, lines, "\n");
    assert(strings_view(lines@).len() == lines@.len());
    assert(s@ =~= user_prompt_spec(title@, strings_view(lines@), source_n as nat));
    string_of(&s)
}

pub open spec fn chapter_prompt_spec(book: Seq<char>, chapter: Seq<char>, lines: Seq<Seq<char>>) -> Seq<char> {
    "书名："@ + book + "\n本章："@ + chapter + "\n共 "@ + dec(lines.len()) + " 条。请归纳本章线索。请输出 JSON。\n\n"@
        + join_with(lines, "\n"@)
}

/// The request for one chapter's lines.
pub fn chapter_user_prompt(book: &str, chapter: &str, lines: &[String]) -> (r: String)
    ensures
        r@ == chapter_prompt_spec(book@, chapter@, strings_view(lines@)),
{
    let mut s = chars_of("书名：");
    push_str(&mut s, book);
    push_str(&mut s, "\n本章：");
    push_str(&mut s, chapter);
    push_str(&mut s, "\n共 ");
    push_dec_usize(&mut s, lines.len());
    push_str(&mut s, " 条。请归纳本章线索。请输出 JSON。\n\n");
    push_joined_strings(&mut s, lines, "\n");
    assert(strings_view(lines@).len() == lines@.len());
    assert(s@ =~= chapter_prompt_spec(book@, chapter@, strings_view(lines@)));
    string_of(&s)
}

/// One line per child: its label and cited ids.
pub open spec fn child_lines(cs: Seq<NodeView>) -> Seq<char>
    decreases cs.len(),
{
    if cs.len() == 0 {
        Seq::empty()
    } else {
        child_lines(cs.drop_last()) + "  - "@ + cs.last().label + " | 卡: "@ + join_ids(cs.last().ids) + "\n"@
    }
}

/// A chapter's theme: label and ids, its summary when not empty, then its
/// children.
pub open spec fn theme_block(t: NodeView) -> Seq<char> {
    "- "@ + t.label + " | 卡: "@ + join_ids(t.ids) + "\n"@ + (match t.summary {
        Some(s) => if s.len() > 0 {
            "  概要："@ + s + "\n"@
        } else {
            Seq::empty()
        },
        None => Seq::empty(),
    }) + child_lines(t.children)
}

pub open spec fn theme_blocks(ts: Seq<NodeView>) -> Seq<char>
    decreases ts.len(),
{
    if ts.len() == 0 {
        Seq::empty()
    } else {
        theme_blocks(ts.drop_last()) + theme_block(ts.last())
    }
}

pub open spec fn chapter_blocks(chs: Seq<(Seq<char>, Seq<NodeView>)>) -> Seq<char>
    decreases chs.len(),
{
    if chs.len() == 0 {
        Seq::empty()
    } else {
        chapter_blocks(chs.drop_last()) + "## 章："@ + chs.last().0 + "\n"@ + theme_blocks(chs.last().1)
    }
}

pub open spec fn outlines_view(chs: Seq<(String, Vec<MindmapNode>)>) -> Seq<(Seq<char>, Seq<NodeView>)> {
    chs.map_values(|p: (String, Vec<MindmapNode>)| (p.0@, nodes_view(p.1@)))
}

pub open spec fn merge_prompt_spec(title: Seq<char>, chs: Seq<(Seq<char>, Seq<NodeView>)>) -> Seq<char> {
    "书名："@ + title + "\n请合并成全书线索。请输出 JSON。\n\n"@ + chapter_blocks(chs)
}

fn push_theme_block(out: &mut Vec<char>, t: &MindmapNode)
    ensures
        final(out)@ == old(out)@ + theme_block(node_view(*t)),
{
    let ghost start = out@;
    push_str(out, "- ");
    push_str(out, t.label.as_str());
    push_str(out, " | 卡: ");
    push_joined_ids(out, &t.source_card_ids);
    push_str(out, "\n");
    match &t.summary {
        Some(s) => {
            if chars_of(s.as_str()).len() > 0 {
                push_str(out, "  概要：");
                push_str(out, s.as_str());
                push_str(out, "\n");
            }
        },
        None => {},
    }
    let ghost mid = out@;
    proof {
        lemma_children_view(*t);
    }
    let mut i: usize = 0;
    while i < t.children.len()
        invariant
            i <= t.children@.len(),
            out@ == mid + child_lines(nodes_view(t.children@).take(i as int)),
        decreases t.children@.len() - i,
    {
        proof {
            assert(nodes_view(t.children@).take(i + 1).drop_last() =~= nodes_view(t.children@).take(i as int));
        }
        let c = &t.children[i];
        push_str(out, "  - ");
        push_str(out, c.label.as_str());
        push_str(out, " | 卡: ");
        push_joined_ids(out, &c.source_card_ids);
        push_str(out, "\n");
        i = i + 1;
        assert(out@ =~= mid + child_lines(nodes_view(t.children@).take(i as int)));
    }
    assert(nodes_view(t.children@).take(t.children@.len() as int) =~= nodes_view(t.children@));
    assert(out@ =~= start + theme_block(node_view(*t)));
}

/// The request to merge the chapters' themes into themes for the book.
pub fn merge_user_prompt(title: &str, chapters: &[(String, Vec<MindmapNode>)]) -> (r: String)
    ensures
        r@ == merge_prompt_spec(title@, outlines_view(chapters@)),
{
    let mut s = chars_of("书名：");
    push_str(&mut s, title);
    push_str(&mut s, "\n请合并成全书线索。请输出 JSON。\n\n");
    let ghost start = s@;
    let mut i: usize = 0;
    while i < chapters.len()
        invariant
            i <= chapters@.len(),
            s@ == start + chapter_blocks(outlines_view(chapters@).take(i as int)),
        decreases chapters@.len() - i,
    {
        proof {
            assert(outlines_view(chapters@).take(i + 1).drop_last() =~= outlines_view(chapters@).take(i as int));
        }
        let ch = &chapters[i];
        push_str(&mut s, "## 章：");
        push_str(&mut s, ch.0.as_str());
        push_str(&mut s, "\n");
        let ghost mid = s@;
        let mut j: usize = 0;
        while j < ch.1.len()
            invariant
                j <= ch.1@.len(),
                s@ == mid + theme_blocks(nodes_view(ch.1@).take(j as int)),
            decreases ch.1@.len() - j,
        {
            proof {
                assert(nodes_view(ch.1@).take(j + 1).drop_last() =~= nodes_view(ch.1@).take(j as int));
            }
            push_theme_block(&mut s, &ch.1[j]);
            j = j + 1;
            assert(s@ =~= mid + theme_blocks(nodes_view(ch.1@).take(j as int)));
        }
        assert(nodes_view(ch.1@).take(ch.1@.len() as int) =~= nodes_view(ch.1@));
        i = i + 1;
        assert(s@ =~= start + chapter_blocks(outlines_view(chapters@).take(i as int)));
    }
    assert(outlines_view(chapters@).take(chapters@.len() as int) =~= outlines_view(chapters@));
    string_of(&s)
}

// ---------- cleaning the model's tree ----------

/// The text without whitespace and the marks `…`, `.` and `。`: the form
/// in which labels are compared with the cards.
pub open spec fn strip_marks(s: Seq<char>) -> Seq<char> {
    s.filter(|c: char| !is_ws(c) && c != '…' && c != '.' && c != '。')
}

fn strip_marks_of(s: &Vec<char>) -> (r: Vec<char>)
    ensures
        r@ == strip_marks(s@),
{
    let mut out: Vec<char> = Vec::new();
    let mut i: usize = 0;
    while i < s.len()
        invariant
            i <= s@.len(),
            out@ == strip_marks(s@.take(i as int)),
        decreases s@.len() - i,
    {
        let c = s[i];
        proof {
            assert(s@.take(i + 1) =~= s@.take(i as int).push(c));
            s@.take(i as int).lemma_filter_push(c, |c: char| !is_ws(c) && c != '…' && c != '.' && c != '。');
        }
        if !crate::text::char_is_ws(c) && c != '…' && c != '.' && c != '。' {
            out.push(c);
        }
        i = i + 1;
    }
    assert(s@.take(s@.len() as int) =~= s@);
    out
}

/// The card a cited id refers to: the last card with that id.
pub open spec fn card_of(cards: Seq<CardRow>, id: i64) -> Option<CardRow> {
    last_with_id(cards, id)
}

fn card_for(cards: &[CardRow], id: i64) -> (r: Option<&CardRow>)
    ensures
        match r {
            Some(c) => card_of(cards@, id) == Some(*c),
            None => card_of(cards@, id) is None,
        },
{
    let mut i: usize = cards.len();
    assert(cards@.take(cards@.len() as int) =~= cards@);
    while i > 0
        invariant
            i <= cards@.len(),
            last_with_id(cards@, id) == last_with_id(cards@.take(i as int), id),
        decreases i,
    {
        assert(cards@.take(i as int).drop_last() =~= cards@.take(i - 1));
        if cards[i - 1].id == id {
            return Some(&cards[i - 1]);
        }
        i = i - 1;
    }
    None
}

/// A label repeats the start of a card: it equals, extends or is
/// extended by the first 24 characters of the card's trimmed text, or it
/// equals the first 24 characters of the card's trimmed note (all compared
/// without whitespace and final marks).
pub open spec fn excerpt_of(needle: Seq<char>, c: CardRow) -> bool {
    let p = strip_marks(prefix(trim(c.text@), 24));
    let n = trim(c.note@);
    (p.len() > 0 && (needle == p || starts_with(p, needle) || starts_with(needle, p))) || (n.len() > 0
        && needle == strip_marks(prefix(n, 24)))
}

pub open spec fn excerpt_at(needle: Seq<char>, ids: Seq<i64>, cards: Seq<CardRow>, k: int) -> bool {
    match card_of(cards, ids[k]) {
        Some(c) => excerpt_of(needle, c),
        None => false,
    }
}

/// A label that is empty once marks are stripped, or that repeats one of
/// the cited cards.
pub open spec fn is_excerpt_spec(label: Seq<char>, ids: Seq<i64>, cards: Seq<CardRow>) -> bool {
    let needle = strip_marks(label);
    needle.len() == 0 || exists|k: int| 0 <= k < ids.len() && #[trigger] excerpt_at(needle, ids, cards, k)
}

fn excerpt_of_card(needle: &Vec<char>, c: &CardRow) -> (r: bool)
    ensures
        r == excerpt_of(needle@, *c),
{
    let p = strip_marks_of(&prefix_chars(&trimmed(c.text.as_str()), 24));
    if p.len() > 0 && (same_text(needle, &p) || has_prefix(&p, needle) || has_prefix(needle, &p)) {
        return true;
    }
    let n = trimmed(c.note.as_str());
    if n.len() > 0 {
        let np = strip_marks_of(&prefix_chars(&n, 24));
        if same_text(needle, &np) {
            return true;
        }
    }
    false
}

fn is_excerpt(label: &Vec<char>, ids: &Vec<i64>, cards: &[CardRow]) -> (r: bool)
    ensures
        r == is_excerpt_spec(label@, ids@, cards@),
{
    let needle = strip_marks_of(label);
    if needle.len() == 0 {
        return true;
    }
    let mut i: usize = 0;
    while i < ids.len()
        invariant
            i <= ids@.len(),
            needle@ == strip_marks(label@),
            forall|k: int| 0 <= k < i ==> !#[trigger] excerpt_at(needle@, ids@, cards@, k),
        decreases ids@.len() - i,
    {
        match card_for(cards, ids[i]) {
            Some(c) => {
                if excerpt_of_card(&needle, c) {
                    assert(excerpt_at(needle@, ids@, cards@, i as int));
                    return true;
                }
            },
            None => {},
        }
        i = i + 1;
    }
    false
}

/// The cited ids that name a known card, first occurrences only.
pub open spec fn keep_known(ids: Seq<i64>, cards: Seq<CardRow>) -> Seq<i64>
    decreases ids.len(),
{
    if ids.len() == 0 {
        Seq::empty()
    } else {
        let r = keep_known(ids.drop_last(), cards);
        if in_ids(cards, ids.last()) && !r.contains(ids.last()) {
            r.push(ids.last())
        } else {
            r
        }
    }
}

/// `base` followed by the ids of `more` it lacks, first occurrences only.
pub open spec fn add_new(base: Seq<i64>, more: Seq<i64>) -> Seq<i64>
    decreases more.len(),
{
    if more.len() == 0 {
        base
    } else {
        let r = add_new(base, more.drop_last());
        if !r.contains(more.last()) {
            r.push(more.last())
        } else {
            r
        }
    }
}

/// Every id cited in the nodes and their descendants, in order.
pub open spec fn collect(nodes: Seq<NodeView>) -> Seq<i64>
    decreases nodes,
{
    if nodes.len() == 0 {
        Seq::empty()
    } else {
        collect(nodes.drop_last()) + nodes.last().ids + collect(nodes.last().children)
    }
}

/// The ids the nodes cite themselves, in order.
pub open spec fn child_ids(kids: Seq<NodeView>) -> Seq<i64>
    decreases kids.len(),
{
    if kids.len() == 0 {
        Seq::empty()
    } else {
        child_ids(kids.drop_last()) + kids.last().ids
    }
}

/// A summary trimmed and cut to 40 characters; a blank one is dropped.
pub open spec fn clean_summary(s: Option<Seq<char>>) -> Option<Seq<char>> {
    match s {
        Some(x) => {
            let t = trim(x);
            if t.len() > 40 {
                Some(t.take(40))
            } else if t.len() == 0 {
                None
            } else {
                Some(t)
            }
        },
        None => None,
    }
}

/// A label as quoted in warnings: trimmed, and cut to 24 characters and
/// `…` when longer.
pub open spec fn warn_label(s: Seq<char>) -> Seq<char> {
    let t = trim(s);
    if t.len() <= 24 {
        t
    } else {
        t.take(24) + "…"@
    }
}

/// Why a cleaned node is dropped, if it is: fewer than two known cards,
/// a label outside 8 to 24 characters, or a label that repeats a card.
pub open spec fn drop_reason(node: NodeView, cards: Seq<CardRow>) -> Option<Seq<char>> {
    let name = warn_label(node.label);
    if node.ids.len() == 0 {
        Some("丢掉「"@ + name + "」：没有有效证据卡号"@)
    } else if node.ids.len() < 2 {
        Some("丢掉「"@ + name + "」：只有 "@ + dec(node.ids.len()) + " 张证据，至少要 2 张"@)
    } else if node.label.len() < 8 || node.label.len() > 24 {
        Some("丢掉标题长度不合规的节点「"@ + name + "」"@)
    } else if is_excerpt_spec(node.label, node.ids, cards) {
        Some("丢掉原文截断节点「"@ + name + "」"@)
    } else {
        None
    }
}

/// How many themes one level may hold: 12 at the top, 3 below.
pub open spec fn cap_at(depth: nat) -> nat {
    if depth <= 1 {
        12
    } else {
        3
    }
}

/// A node made a theme: trimmed label, cleaned summary, the given
/// cleaned children, and as evidence its own and its descendants' known
/// ids, then those its cleaned children cite.
pub open spec fn clean_node(n: NodeView, kids: Seq<NodeView>, cards: Seq<CardRow>) -> NodeView {
    NodeView {
        id: n.id,
        label: trim(n.label),
        kind: "theme"@,
        summary: clean_summary(n.summary),
        ids: add_new(keep_known(n.ids + collect(n.children), cards), child_ids(kids)),
        children: kids,
    }
}

pub open spec fn card_leaf_warning() -> Seq<char> {
    "已丢掉卡片叶子，划线不能当节点"@
}

/// The themes kept of `nodes` at `depth` (1 for the top level), and the
/// warnings given on the way, in order. Card leaves are dropped; a level
/// keeps at most `cap_at(depth)` themes; the second level has no children.
pub open spec fn clean_themes(nodes: Seq<NodeView>, cards: Seq<CardRow>, depth: nat) -> (Seq<NodeView>, Seq<Seq<char>>)
    decreases nodes,
{
    if nodes.len() == 0 {
        (Seq::empty(), Seq::empty())
    } else {
        let prev = clean_themes(nodes.drop_last(), cards, depth);
        let n = nodes.last();
        if prev.0.len() >= cap_at(depth) {
            prev
        } else if n.kind == "card"@ {
            (prev.0, prev.1.push(card_leaf_warning()))
        } else {
            let sub = if depth >= 2 {
                (Seq::<NodeView>::empty(), Seq::<Seq<char>>::empty())
            } else {
                clean_themes(n.children, cards, depth + 1)
            };
            let node = clean_node(n, sub.0, cards);
            let w = prev.1 + sub.1;
            match drop_reason(node, cards) {
                Some(m) => (prev.0, w.push(m)),
                None => (prev.0.push(node), w),
            }
        }
    }
}

/// The themes of a level that pass the checks, in order, with no limit on
/// how many: card leaves are left out, each other node is cleaned (the
/// second level without children) and kept unless it has a drop reason.
pub open spec fn sound_themes(nodes: Seq<NodeView>, cards: Seq<CardRow>, depth: nat) -> Seq<NodeView>
    decreases nodes.len(),
{
    if nodes.len() == 0 {
        Seq::empty()
    } else {
        let prev = sound_themes(nodes.drop_last(), cards, depth);
        let n = nodes.last();
        if n.kind == "card"@ {
            prev
        } else {
            let kids = if depth >= 2 {
                Seq::<NodeView>::empty()
            } else {
                clean_themes(n.children, cards, depth + 1).0
            };
            let node = clean_node(n, kids, cards);
            if drop_reason(node, cards) is None {
                prev.push(node)
            } else {
                prev
            }
        }
    }
}

/// A level keeps the first sound themes, all of them up to its limit:
/// twelve at the top, three below it. No sound theme is dropped while the
/// level has room.
pub proof fn lemma_level_keeps_first_sound(nodes: Seq<NodeView>, cards: Seq<CardRow>, depth: nat)
    ensures
        ({
            let s = sound_themes(nodes, cards, depth);
            let room: int = if depth <= 1 {
                12
            } else {
                3
            };
            clean_themes(nodes, cards, depth).0 == s.take(if s.len() < room {
                s.len() as int
            } else {
                room
            })
        }),
    decreases nodes.len(),
{
    let room: int = if depth <= 1 {
        12
    } else {
        3
    };
    let k = clean_themes(nodes, cards, depth).0;
    let s = sound_themes(nodes, cards, depth);
    if nodes.len() == 0 {
        assert(s.take(0) =~= k);
    } else {
        let d = nodes.drop_last();
        lemma_level_keeps_first_sound(d, cards, depth);
        let kd = clean_themes(d, cards, depth).0;
        let sd = sound_themes(d, cards, depth);
        if sd.len() < room {
            assert(kd == sd);
            assert(k == s);
            assert(s.len() <= room);
            assert(s.take(s.len() as int) =~= s);
        } else {
            assert(kd == sd.take(room));
            assert(k == kd);
            assert(s.take(room) =~= sd.take(room));
        }
    }
}

/// A second-level node that passes the checks on its own.
pub open spec fn sound_leaf_theme(n: NodeView, cards: Seq<CardRow>) -> bool {
    n.kind != "card"@ && drop_reason(clean_node(n, Seq::empty(), cards), cards) is None
}

/// Under a top theme, up to three sub-themes that each pass the checks
/// are all kept.
pub proof fn lemma_sound_subthemes_all_kept(nodes: Seq<NodeView>, cards: Seq<CardRow>)
    requires
        nodes.len() <= 3,
        forall|i: int| 0 <= i < nodes.len() ==> sound_leaf_theme(#[trigger] nodes[i], cards),
    ensures
        clean_themes(nodes, cards, 2).0.len() == nodes.len(),
{
    lemma_sound_len(nodes, cards);
    lemma_level_keeps_first_sound(nodes, cards, 2);
}

proof fn lemma_sound_len(nodes: Seq<NodeView>, cards: Seq<CardRow>)
    requires
        forall|i: int| 0 <= i < nodes.len() ==> sound_leaf_theme(#[trigger] nodes[i], cards),
    ensures
        sound_themes(nodes, cards, 2).len() == nodes.len(),
    decreases nodes.len(),
{
    if nodes.len() > 0 {
        let d = nodes.drop_last();
        assert forall|i: int| 0 <= i < d.len() implies sound_leaf_theme(#[trigger] d[i], cards) by {
            assert(d[i] == nodes[i]);
        }
        lemma_sound_len(d, cards);
        assert(sound_leaf_theme(nodes[nodes.len() - 1], cards));
    }
}

fn collect_ids_nodes(nodes: &Vec<MindmapNode>) -> (r: Vec<i64>)
    ensures
        r@ == collect(nodes_view(nodes@)),
    decreases nodes@,
{
    let mut out: Vec<i64> = Vec::new();
    let mut i: usize = 0;
    while i < nodes.len()
        invariant
            i <= nodes@.len(),
            out@ == collect(nodes_view(nodes@).take(i as int)),
        decreases nodes@.len() - i,
    {
        let n = &nodes[i];
        proof {
            assert(nodes_view(nodes@).take(i + 1).drop_last() =~= nodes_view(nodes@).take(i as int));
            lemma_children_view(*n);
            assert(decreases_to!(nodes@ => nodes@[i as int].children@));
        }
        let mut j: usize = 0;
        let ghost base = out@;
        while j < n.source_card_ids.len()
            invariant
                j <= n.source_card_ids@.len(),
                out@ == base + n.source_card_ids@.take(j as int),
            decreases n.source_card_ids@.len() - j,
        {
            out.push(n.source_card_ids[j]);
            j = j + 1;
            assert(out@ =~= base + n.source_card_ids@.take(j as int));
        }
        assert(n.source_card_ids@.take(j as int) =~= n.source_card_ids@);
        let sub = collect_ids_nodes(&n.children);
        let ghost mid = out@;
        let mut k: usize = 0;
        while k < sub.len()
            invariant
                k <= sub@.len(),
                out@ == mid + sub@.take(k as int),
            decreases sub@.len() - k,
        {
            out.push(sub[k]);
            k = k + 1;
            assert(out@ =~= mid + sub@.take(k as int));
        }
        assert(sub@.take(k as int) =~= sub@);
        i = i + 1;
        assert(out@ =~= collect(nodes_view(nodes@).take(i as int)));
    }
    assert(nodes_view(nodes@).take(nodes@.len() as int) =~= nodes_view(nodes@));
    out
}

fn contains_i64(v: &Vec<i64>, x: i64) -> (r: bool)
    ensures
        r == v@.contains(x),
{
    let mut i: usize = 0;
    while i < v.len()
        invariant
            i <= v@.len(),
            forall|k: int| 0 <= k < i ==> v@[k] != x,
        decreases v@.len() - i,
    {
        if v[i] == x {
            return true;
        }
        i = i + 1;
    }
    false
}

fn has_card_id(cards: &[CardRow], id: i64) -> (r: bool)
    ensures
        r == in_ids(cards@, id),
{
    let mut i: usize = 0;
    while i < cards.len()
        invariant
            i <= cards@.len(),
            forall|k: int| 0 <= k < i ==> (#[trigger] cards@[k]).id != id,
        decreases cards@.len() - i,
    {
        if cards[i].id == id {
            return true;
        }
        i = i + 1;
    }
    false
}

fn keep_known_of(ids: &Vec<i64>, cards: &[CardRow]) -> (r: Vec<i64>)
    ensures
        r@ == keep_known(ids@, cards@),
{
    let mut out: Vec<i64> = Vec::new();
    let mut i: usize = 0;
    while i < ids.len()
        invariant
            i <= ids@.len(),
            out@ == keep_known(ids@.take(i as int), cards@),
        decreases ids@.len() - i,
    {
        proof {
            assert(ids@.take(i + 1).drop_last() =~= ids@.take(i as int));
        }
        let x = ids[i];
        if has_card_id(cards, x) && !contains_i64(&out, x) {
            out.push(x);
        }
        i = i + 1;
    }
    assert(ids@.take(ids@.len() as int) =~= ids@);
    out
}

fn add_new_of(base: Vec<i64>, more: &Vec<i64>) -> (r: Vec<i64>)
    ensures
        r@ == add_new(base@, more@),
{
    let ghost b = base@;
    let mut out = base;
    let mut i: usize = 0;
    while i < more.len()
        invariant
            i <= more@.len(),
            out@ == add_new(b, more@.take(i as int)),
        decreases more@.len() - i,
    {
        proof {
            assert(more@.take(i + 1).drop_last() =~= more@.take(i as int));
        }
        let x = more[i];
        if !contains_i64(&out, x) {
            out.push(x);
        }
        i = i + 1;
    }
    assert(more@.take(more@.len() as int) =~= more@);
    out
}

fn child_ids_of(kids: &Vec<MindmapNode>) -> (r: Vec<i64>)
    ensures
        r@ == child_ids(nodes_view(kids@)),
{
    let mut out: Vec<i64> = Vec::new();
    let mut i: usize = 0;
    while i < kids.len()
        invariant
            i <= kids@.len(),
            out@ == child_ids(nodes_view(kids@).take(i as int)),
        decreases kids@.len() - i,
    {
        proof {
            assert(nodes_view(kids@).take(i + 1).drop_last() =~= nodes_view(kids@).take(i as int));
        }
        let ghost base = out@;
        let ids = &kids[i].source_card_ids;
        let mut j: usize = 0;
        while j < ids.len()
            invariant
                j <= ids@.len(),
                out@ == base + ids@.take(j as int),
            decreases ids@.len() - j,
        {
            out.push(ids[j]);
            j = j + 1;
            assert(out@ =~= base + ids@.take(j as int));
        }
        assert(ids@.take(j as int) =~= ids@);
        i = i + 1;
        assert(out@ =~= child_ids(nodes_view(kids@).take(i as int)));
    }
    assert(nodes_view(kids@).take(kids@.len() as int) =~= nodes_view(kids@));
    out
}

fn clean_summary_of(s: &Option<String>) -> (r: Option<String>)
    ensures
        opt_text(r) == clean_summary(opt_text(*s)),
{
    match s {
        Some(x) => {
            let t = trimmed(x.as_str());
            if t.len() > 40 {
                Some(string_of(&prefix_chars(&t, 40)))
            } else if t.len() == 0 {
                None
            } else {
                Some(string_of(&t))
            }
        },
        None => None,
    }
}

fn warn_label_of(s: &Vec<char>) -> (r: Vec<char>)
    ensures
        r@ == warn_label(s@),
{
    let t = crate::text::trim_chars(s);
    if t.len() <= 24 {
        t
    } else {
        let mut out = prefix_chars(&t, 24);
        out.push('…');
        proof {
            reveal_strlit("…");
        }
        assert(out@ =~= warn_label(s@));
        out
    }
}

fn drop_reason_of(node: &MindmapNode, cards: &[CardRow]) -> (r: Option<String>)
    ensures
        opt_text(r) == drop_reason(node_view(*node), cards@),
{
    let label = chars_of(node.label.as_str());
    let name = warn_label_of(&label);
    let n = node.source_card_ids.len();
    if n == 0 {
        let mut m = chars_of("丢掉「");
        push_chars(&mut m, &name);
        push_str(&mut m, "」：没有有效证据卡号");
        Some(string_of(&m))
    } else if n < 2 {
        let mut m = chars_of("丢掉「");
        push_chars(&mut m, &name);
        push_str(&mut m, "」：只有 ");
        push_dec_usize(&mut m, n);
        push_str(&mut m, " 张证据，至少要 2 张");
        Some(string_of(&m))
    } else if label.len() < 8 || label.len() > 24 {
        let mut m = chars_of("丢掉标题长度不合规的节点「");
        push_chars(&mut m, &name);
        push_str(&mut m, "」");
        Some(string_of(&m))
    } else if is_excerpt(&label, &node.source_card_ids, cards) {
        let mut m = chars_of("丢掉原文截断节点「");
        push_chars(&mut m, &name);
        push_str(&mut m, "」");
        Some(string_of(&m))
    } else {
        None
    }
}

fn sanitize_themes(nodes: Vec<MindmapNode>, cards: &[CardRow], warnings: &mut Vec<String>, depth: usize) -> (r: Vec<
    MindmapNode,
>)
    requires
        1 <= depth <= 2,
    ensures
        nodes_view(r@) == clean_themes(nodes_view(nodes@), cards@, depth as nat).0,
        strings_view(final(warnings)@) == strings_view(old(warnings)@) + clean_themes(
            nodes_view(nodes@),
            cards@,
            depth as nat,
        ).1,
    decreases 3 - depth,
{
    let ghost orig = nodes_view(nodes@);
    let ghost w0 = strings_view(warnings@);
    let cap: usize = if depth <= 1 {
        12
    } else {
        3
    };
    let len = nodes.len();
    let mut rest = nodes;
    let mut out: Vec<MindmapNode> = Vec::new();
    let mut k: usize = 0;
    assert(orig.take(0) =~= Seq::<NodeView>::empty());
    assert(nodes_view(rest@) =~= orig.skip(0));
    while rest.len() > 0
        invariant
            1 <= depth <= 2,
            cap == cap_at(depth as nat),
            orig.len() == len,
            k + rest@.len() == orig.len(),
            nodes_view(rest@) == orig.skip(k as int),
            nodes_view(out@) == clean_themes(orig.take(k as int), cards@, depth as nat).0,
            strings_view(warnings@) == w0 + clean_themes(orig.take(k as int), cards@, depth as nat).1,
        decreases rest@.len(),
    {
        let ghost old_rest = rest@;
        let n = rest.remove(0);
        let ghost nv = node_view(n);
        let ghost prev = clean_themes(orig.take(k as int), cards@, depth as nat);
        proof {
            assert(nodes_view(old_rest)[0] == nv);
            assert(orig[k as int] == nv);
            assert(orig.take(k + 1).drop_last() =~= orig.take(k as int));
            assert(orig.take(k + 1).last() == nv);
            lemma_children_view(n);
        }
        let ghost w_before = strings_view(warnings@);
        if out.len() >= cap {
        } else if string_is(&n.kind, "card") {
            warnings.push(owned("已丢掉卡片叶子，划线不能当节点"));
            assert(strings_view(warnings@) =~= w_before.push(card_leaf_warning()));
        } else {
            let MindmapNode { id, label, kind: _, summary, source_card_ids, children } = n;
            let label_t = trimmed(label.as_str());
            let summary_c = clean_summary_of(&summary);
            let below = collect_ids_nodes(&children);
            let mut all = source_card_ids;
            let ghost own = all@;
            let mut j: usize = 0;
            while j < below.len()
                invariant
                    j <= below@.len(),
                    all@ == own + below@.take(j as int),
                decreases below@.len() - j,
            {
                all.push(below[j]);
                j = j + 1;
                assert(all@ =~= own + below@.take(j as int));
            }
            assert(below@.take(j as int) =~= below@);
            let ids0 = keep_known_of(&all, cards);
            let ghost w_mid = strings_view(warnings@);
            let kids: Vec<MindmapNode> = if depth >= 2 {
                Vec::new()
            } else {
                sanitize_themes(children, cards, warnings, depth + 1)
            };
            let ghost sub = if depth >= 2 {
                (Seq::<NodeView>::empty(), Seq::<Seq<char>>::empty())
            } else {
                clean_themes(nv.children, cards@, depth as nat + 1)
            };
            assert(nodes_view(kids@) =~= sub.0);
            assert(strings_view(warnings@) =~= w_mid + sub.1);
            let ids = add_new_of(ids0, &child_ids_of(&kids));
            let node = MindmapNode {
                id,
                label: string_of(&label_t),
                kind: owned("theme"),
                summary: summary_c,
                source_card_ids: ids,
                children: kids,
            };
            proof {
                lemma_children_view(node);
                let want = clean_node(nv, sub.0, cards@);
                assert(node_view(node).children =~= want.children);
                assert(node_view(node).ids =~= want.ids);
                assert(node_view(node).label =~= want.label);
                assert(node_view(node) == want);
            }
            let ghost wb = strings_view(warnings@);
            match drop_reason_of(&node, cards) {
                Some(m) => {
                    let ghost mv = m@;
                    warnings.push(m);
                    assert(strings_view(warnings@) =~= wb.push(mv));
                },
                None => {
                    let ghost ob = nodes_view(out@);
                    out.push(node);
                    assert(nodes_view(out@) =~= ob.push(clean_node(nv, sub.0, cards@)));
                },
            }
        }
        k = k + 1;
        proof {
            assert forall|t: int| 0 <= t < rest@.len() implies #[trigger] nodes_view(rest@)[t] == orig.skip(
                k as int,
            )[t] by {
                assert(rest@[t] == old_rest[t + 1]);
                assert(nodes_view(old_rest)[t + 1] == node_view(old_rest[t + 1]));
            }
            assert(nodes_view(rest@) =~= orig.skip(k as int));
        }
    }
    assert(orig.take(len as int) =~= orig);

    out
}

/// The distinct ids in order of first occurrence.
pub open spec fn distinct(ids: Seq<i64>) -> Seq<i64> {
    add_new(Seq::empty(), ids)
}

pub open spec fn card_ids(cards: Seq<CardRow>) -> Seq<i64> {
    cards.map_values(|c: CardRow| c.id)
}

/// The chapter ids of the cards that have one, in order.
pub open spec fn chapter_uids(cards: Seq<CardRow>) -> Seq<i64>
    decreases cards.len(),
{
    if cards.len() == 0 {
        Seq::empty()
    } else {
        match cards.last().chapter_uid {
            Some(u) => chapter_uids(cards.drop_last()).push(u),
            None => chapter_uids(cards.drop_last()),
        }
    }
}

/// The cards that no kept theme cites, each id once.
pub open spec fn unplaced_ids(cards: Seq<CardRow>, tops: Seq<NodeView>) -> Seq<i64> {
    distinct(card_ids(cards)).filter(|id: i64| !collect(tops).contains(id))
}

/// The number of theme nodes in the trees.
pub open spec fn count_themes(nodes: Seq<NodeView>) -> int
    decreases nodes,
{
    if nodes.len() == 0 {
        0
    } else {
        count_themes(nodes.drop_last()) + (if nodes.last().kind == "theme"@ {
            1int
        } else {
            0int
        }) + count_themes(nodes.last().children)
    }
}

/// The distinct non-blank warnings, trimmed, in order.
pub open spec fn reasons(ws: Seq<Seq<char>>) -> Seq<Seq<char>>
    decreases ws.len(),
{
    if ws.len() == 0 {
        Seq::empty()
    } else {
        let r = reasons(ws.drop_last());
        let t = trim(ws.last());
        if t.len() > 0 && !r.contains(t) {
            r.push(t)
        } else {
            r
        }
    }
}

/// The message when no theme survives: a fixed line when nothing was
/// dropped for a stated reason, else the first eight distinct reasons and
/// how many more there were.
pub open spec fn empty_clue_text(ws: Seq<Seq<char>>) -> Seq<char> {
    if ws.len() == 0 {
        "没有得到可用的概要节点。请重试，或换一个模型。"@
    } else {
        let u = reasons(ws);
        let shown = if u.len() > 8 {
            u.take(8)
        } else {
            u
        };
        let extra = u.len() - shown.len();
        let body = join_with(shown, "\n"@) + (if extra > 0 {
            "\n…另有 "@ + dec(extra as nat) + " 条"@
        } else {
            Seq::empty()
        });
        "没有得到可用的概要节点。"@ + "\n"@ + body + "\n"@ + "请重试，或换一个模型。"@
    }
}

fn contains_text(v: &Vec<Vec<char>>, t: &Vec<char>) -> (r: bool)
    ensures
        r == views_of(v@).contains(t@),
{
    let mut i: usize = 0;
    while i < v.len()
        invariant
            i <= v@.len(),
            forall|k: int| 0 <= k < i ==> views_of(v@)[k] != t@,
        decreases v@.len() - i,
    {
        if same_text(&v[i], t) {
            assert(views_of(v@)[i as int] == t@);
            return true;
        }
        i = i + 1;
    }
    false
}

/// The error returned when cleaning leaves no theme.
pub fn empty_clue_error(warnings: &Vec<String>) -> (r: MindmapError)
    ensures
        r matches MindmapError::Msg(m) && m@ == empty_clue_text(strings_view(warnings@)),
{
    if warnings.len() == 0 {
        return MindmapError::Msg(owned("没有得到可用的概要节点。请重试，或换一个模型。"));
    }
    let ghost ws = strings_view(warnings@);
    let mut seen: Vec<Vec<char>> = Vec::new();
    let mut i: usize = 0;
    while i < warnings.len()
        invariant
            i <= warnings@.len(),
            ws == strings_view(warnings@),
            views_of(seen@) == reasons(ws.take(i as int)),
        decreases warnings@.len() - i,
    {
        proof {
            assert(ws.take(i + 1).drop_last() =~= ws.take(i as int));
        }
        let t = trimmed(warnings[i].as_str());
        if t.len() > 0 && !contains_text(&seen, &t) {
            let ghost before = views_of(seen@);
            let ghost tv = t@;
            seen.push(t);
            assert(views_of(seen@) =~= before.push(tv));
        }
        i = i + 1;
    }
    assert(ws.take(ws.len() as int) =~= ws);
    let total = seen.len();
    let mut shown = seen;
    shown.truncate(8);
    let ghost u = reasons(ws);
    assert(views_of(shown@) =~= (if u.len() > 8 {
        u.take(8)
    } else {
        u
    }));
    let extra = total - shown.len();
    let mut m = chars_of("没有得到可用的概要节点。");
    push_str(&mut m, "\n");
    push_joined(&mut m, &shown, "\n");
    if extra > 0 {
        push_str(&mut m, "\n…另有 ");
        push_dec_usize(&mut m, extra);
        push_str(&mut m, " 条");
    }
    push_str(&mut m, "\n");
    push_str(&mut m, "请重试，或换一个模型。");
    assert(m@ =~= empty_clue_text(ws));
    MindmapError::Msg(string_of(&m))
}

fn count_themes_of(nodes: &Vec<MindmapNode>) -> (r: usize)
    requires
        count_themes(nodes_view(nodes@)) <= usize::MAX,
    ensures
        r == count_themes(nodes_view(nodes@)),
    decreases nodes@,
{
    let mut total: usize = 0;
    let mut i: usize = 0;
    while i < nodes.len()
        invariant
            i <= nodes@.len(),
            count_themes(nodes_view(nodes@)) <= usize::MAX,
            total == count_themes(nodes_view(nodes@).take(i as int)),
        decreases nodes@.len() - i,
    {
        let n = &nodes[i];
        proof {
            assert(nodes_view(nodes@).take(i + 1).drop_last() =~= nodes_view(nodes@).take(i as int));
            lemma_children_view(*n);
            assert(decreases_to!(nodes@ => nodes@[i as int].children@));
            lemma_count_themes_prefix(nodes_view(nodes@), i + 1);
            lemma_count_themes_nonneg(nodes_view(nodes@).take(i as int));
            lemma_count_themes_nonneg(nodes_view(n.children@));
        }
        let own: usize = if string_is(&n.kind, "theme") {
            1
        } else {
            0
        };
        let sub = count_themes_of(&n.children);
        total = total + own + sub;
        i = i + 1;
    }
    assert(nodes_view(nodes@).take(nodes@.len() as int) =~= nodes_view(nodes@));
    total
}

proof fn lemma_count_themes_nonneg(nodes: Seq<NodeView>)
    ensures
        count_themes(nodes) >= 0,
    decreases nodes,
{
    if nodes.len() > 0 {
        lemma_count_themes_nonneg(nodes.drop_last());
        lemma_count_themes_nonneg(nodes.last().children);
    }
}

proof fn lemma_count_themes_prefix(nodes: Seq<NodeView>, i: int)
    requires
        0 <= i <= nodes.len(),
    ensures
        count_themes(nodes.take(i)) <= count_themes(nodes),
    decreases nodes.len() - i,
{
    if i < nodes.len() {
        lemma_count_themes_prefix(nodes, i + 1);
        assert(nodes.take(i + 1).drop_last() =~= nodes.take(i));
        lemma_count_themes_nonneg(nodes[i].children);
    } else {
        assert(nodes.take(i) =~= nodes);
    }
}

fn distinct_chapters(cards: &[CardRow]) -> (r: usize)
    ensures
        r == distinct(chapter_uids(cards@)).len(),
{
    let mut seen: Vec<i64> = Vec::new();
    let mut i: usize = 0;
    while i < cards.len()
        invariant
            i <= cards@.len(),
            seen@ == distinct(chapter_uids(cards@.take(i as int))),
            seen@.len() <= i,
        decreases cards@.len() - i,
    {
        proof {
            assert(cards@.take(i + 1).drop_last() =~= cards@.take(i as int));
        }
        let ghost prev = chapter_uids(cards@.take(i as int));
        proof {
            assert(cards@.take(i + 1).last() == cards@[i as int]);
        }
        match cards[i].chapter_uid {
            Some(u) => {
                proof {
                    assert(chapter_uids(cards@.take(i + 1)) == prev.push(u));
                    assert(prev.push(u).drop_last() =~= prev);
                    assert(prev.push(u).last() == u);
                }
                if !contains_i64(&seen, u) {
                    seen.push(u);
                }
            },
            None => {
                assert(chapter_uids(cards@.take(i + 1)) == prev);
            },
        }
        i = i + 1;
    }
    assert(cards@.take(cards@.len() as int) =~= cards@);
    seen.len()
}

fn unplaced_count(cards: &[CardRow], assigned: &Vec<i64>) -> (r: usize)
    ensures
        r == distinct(card_ids(cards@)).filter(|id: i64| !assigned@.contains(id)).len(),
{
    let mut seen: Vec<i64> = Vec::new();
    let mut count: usize = 0;
    let ghost pred = |id: i64| !assigned@.contains(id);
    let mut i: usize = 0;
    while i < cards.len()
        invariant
            i <= cards@.len(),
            pred == (|id: i64| !assigned@.contains(id)),
            seen@ == distinct(card_ids(cards@.take(i as int))),
            seen@.len() <= i,
            count == seen@.filter(pred).len(),
        decreases cards@.len() - i,
    {
        let id = cards[i].id;
        proof {
            assert(card_ids(cards@.take(i + 1)) =~= card_ids(cards@.take(i as int)).push(id));
            assert(card_ids(cards@.take(i + 1)).drop_last() =~= card_ids(cards@.take(i as int)));
            seen@.lemma_filter_push(id, pred);
        }
        if !contains_i64(&seen, id) {
            seen.push(id);
            if !contains_i64(assigned, id) {
                count = count + 1;
            }
        }
        i = i + 1;
    }
    assert(cards@.take(cards@.len() as int) =~= cards@);
    count
}

/// Cleans a model's tree for a book: every top-level node is cleaned as
/// `clean_themes` says, the root becomes the book, and the stats and
/// warnings are filled in. Fails when no theme is left.
pub fn sanitize(tree: Mindmap, cards: &[CardRow], book_id: i64, title: &str, hash: &str) -> (r: MindmapResult<Mindmap>)
    ensures
        ({
            let cl = clean_themes(nodes_view(tree.root.children@), cards@, 1);
            let ws = strings_view(tree.warnings@) + cl.1;
            let unplaced = unplaced_ids(cards@, cl.0).len();
            match r {
                Err(MindmapError::Msg(m)) => cl.0.len() == 0 && m@ == empty_clue_text(ws),
                Ok(m) => {
                    &&& cl.0.len() > 0
                    &&& m.book_id == book_id
                    &&& m.title@ == title@
                    &&& m.mode@ == "theme"@
                    &&& m.input_hash@ == hash@
                    &&& m.prompt_version@ == PROMPT_VERSION@
                    &&& m.root.id == tree.root.id
                    &&& m.root.kind@ == "book"@
                    &&& m.root.label@ == title@ + " · 我的划线"@
                    &&& m.root.summary == tree.root.summary
                    &&& m.root.source_card_ids@.len() == 0
                    &&& nodes_view(m.root.children@) == cl.0
                    &&& m.stats.cards == cards@.len() as i64
                    &&& m.stats.chapters == distinct(chapter_uids(cards@)).len() as i64
                    &&& m.stats.themes == count_themes(cl.0) as i64
                    &&& m.stats.unplaced == unplaced as i64
                    &&& strings_view(m.warnings@) == (if unplaced > 0 {
                        ws.push("有 "@ + dec(unplaced) + " 张未归入主题"@)
                    } else {
                        ws
                    })
                },
            }
        }),
{
    let Mindmap { book_id: _, title: _, mode: _, input_hash: _, prompt_version: _, stats: _, root, warnings } = tree;
    let MindmapNode { id: root_id, label: _, kind: _, summary: root_summary, source_card_ids: _, children } = root;
    let mut warnings = warnings;
    let tops = sanitize_themes(children, cards, &mut warnings, 1);
    let ghost cl = clean_themes(nodes_view(tree.root.children@), cards@, 1);
    if tops.len() == 0 {
        return Err(empty_clue_error(&warnings));
    }
    let assigned = collect_ids_nodes(&tops);
    let unplaced = unplaced_count(cards, &assigned);
    let chapters = distinct_chapters(cards);
    proof {
        lemma_clean_themes_valid(nodes_view(tree.root.children@), cards@, 1);
        lemma_count_small(cl.0, cards@);
    }
    let themes = count_themes_of(&tops);
    if unplaced > 0 {
        let mut m = chars_of("有 ");
        push_dec_usize(&mut m, unplaced);
        push_str(&mut m, " 张未归入主题");
        warnings.push(string_of(&m));
    }
    let mut label = chars_of(title);
    push_str(&mut label, " · 我的划线");
    Ok(Mindmap {
        book_id,
        title: owned(title),
        mode: owned("theme"),
        input_hash: owned(hash),
        prompt_version: owned(PROMPT_VERSION),
        stats: MindmapStats {
            cards: cards.len() as i64,
            chapters: chapters as i64,
            themes: themes as i64,
            unplaced: unplaced as i64,
        },
        root: MindmapNode {
            id: root_id,
            label: string_of(&label),
            kind: owned("book"),
            summary: root_summary,
            source_card_ids: Vec::new(),
            children: tops,
        },
        warnings,
    })
}

// ---------- what cleaning guarantees ----------

pub open spec fn ids_distinct(ids: Seq<i64>) -> bool {
    forall|i: int, j: int| 0 <= i < j < ids.len() ==> ids[i] != ids[j]
}

/// A sound theme at `depth`: kind `theme`, a label of 8 to 24 characters
/// that repeats no card, at least two distinct known cards as evidence,
/// at most three children and none below the second level, and children
/// whose evidence is part of its own.
pub open spec fn theme_ok(n: NodeView, cards: Seq<CardRow>, depth: nat) -> bool
    decreases n,
{
    &&& n.kind == "theme"@
    &&& 8 <= n.label.len() <= 24
    &&& 2 <= n.ids.len()
    &&& forall|i: int| 0 <= i < n.ids.len() ==> in_ids(cards, #[trigger] n.ids[i])
    &&& ids_distinct(n.ids)
    &&& !is_excerpt_spec(n.label, n.ids, cards)
    &&& n.children.len() <= 3
    &&& (depth >= 2 ==> n.children.len() == 0)
    &&& forall|j: int, x: i64|
        0 <= j < n.children.len() && #[trigger] n.children[j].ids.contains(x) ==> n.ids.contains(x)
    &&& forall|j: int| 0 <= j < n.children.len() ==> theme_ok(#[trigger] n.children[j], cards, depth + 1)
}

proof fn lemma_keep_known(ids: Seq<i64>, cards: Seq<CardRow>)
    ensures
        ids_distinct(keep_known(ids, cards)),
        forall|i: int| 0 <= i < keep_known(ids, cards).len() ==> in_ids(cards, #[trigger] keep_known(ids, cards)[i]),
    decreases ids.len(),
{
    if ids.len() > 0 {
        lemma_keep_known(ids.drop_last(), cards);
    }
}

proof fn lemma_add_new(base: Seq<i64>, more: Seq<i64>)
    ensures
        ids_distinct(base) ==> ids_distinct(add_new(base, more)),
        forall|x: i64| #[trigger] add_new(base, more).contains(x) <==> (base.contains(x) || more.contains(x)),
    decreases more.len(),
{
    if more.len() > 0 {
        lemma_add_new(base, more.drop_last());
        let r = add_new(base, more.drop_last());
        assert forall|x: i64| #[trigger] add_new(base, more).contains(x) <==> (base.contains(x) || more.contains(x)) by {
            if more.contains(x) && !more.drop_last().contains(x) {
                let k = choose|k: int| 0 <= k < more.len() && more[k] == x;
                if k < more.len() - 1 {
                    assert(more.drop_last()[k] == x);
                }
                assert(x == more.last());
            }
            if more.drop_last().contains(x) {
                let k = choose|k: int| 0 <= k < more.drop_last().len() && more.drop_last()[k] == x;
                assert(more[k] == x);
            }
            if !r.contains(more.last()) {
                assert(r.push(more.last()).last() == more.last());
                if r.push(more.last()).contains(x) && x != more.last() {
                    let k = choose|k: int| 0 <= k < r.push(more.last()).len() && r.push(more.last())[k] == x;
                    assert(r[k] == x);
                }
                if r.contains(x) {
                    let k = choose|k: int| 0 <= k < r.len() && r[k] == x;
                    assert(r.push(more.last())[k] == x);
                }
            }
        }
    }
}

proof fn lemma_child_ids(kids: Seq<NodeView>)
    ensures
        forall|j: int, x: i64| 0 <= j < kids.len() && #[trigger] kids[j].ids.contains(x) ==> child_ids(kids).contains(x),
        forall|x: i64|
            #[trigger] child_ids(kids).contains(x) ==> exists|j: int| 0 <= j < kids.len() && #[trigger] kids[j].ids.contains(x),
    decreases kids.len(),
{
    if kids.len() > 0 {
        let p = kids.drop_last();
        lemma_child_ids(p);
        let c = child_ids(kids);
        assert(c == child_ids(p) + kids.last().ids);
        assert forall|j: int, x: i64| 0 <= j < kids.len() && #[trigger] kids[j].ids.contains(x) implies c.contains(x) by {
            if j < kids.len() - 1 {
                assert(p[j] == kids[j]);
                let k = choose|k: int| 0 <= k < child_ids(p).len() && child_ids(p)[k] == x;
                assert(c[k] == x);
            } else {
                let k = choose|k: int| 0 <= k < kids[j].ids.len() && kids[j].ids[k] == x;
                assert(c[child_ids(p).len() + k] == x);
            }
        }
        assert forall|x: i64| #[trigger] c.contains(x) implies exists|j: int| 0 <= j < kids.len() && #[trigger] kids[j].ids.contains(x) by {
            let k = choose|k: int| 0 <= k < c.len() && c[k] == x;
            if k < child_ids(p).len() {
                assert(child_ids(p)[k] == x);
                assert(child_ids(p).contains(x));
                let j = choose|j: int| 0 <= j < p.len() && #[trigger] p[j].ids.contains(x);
                assert(kids[j] == p[j]);
            } else {
                assert(kids.last().ids[k - child_ids(p).len()] == x);
                assert(kids[kids.len() - 1].ids.contains(x));
            }
        }
    }
}

/// Cleaning keeps only sound themes, and no more than a level may hold:
/// at most 12 at the top and 3 below.
pub proof fn lemma_clean_themes_valid(nodes: Seq<NodeView>, cards: Seq<CardRow>, depth: nat)
    requires
        1 <= depth <= 2,
    ensures
        clean_themes(nodes, cards, depth).0.len() <= cap_at(depth),
        forall|i: int|
            0 <= i < clean_themes(nodes, cards, depth).0.len() ==> theme_ok(
                #[trigger] clean_themes(nodes, cards, depth).0[i],
                cards,
                depth,
            ),
    decreases nodes,
{
    if nodes.len() > 0 {
        let prev = clean_themes(nodes.drop_last(), cards, depth);
        lemma_clean_themes_valid(nodes.drop_last(), cards, depth);
        let n = nodes.last();
        if prev.0.len() < cap_at(depth) && n.kind != "card"@ {
            let sub = if depth >= 2 {
                (Seq::<NodeView>::empty(), Seq::<Seq<char>>::empty())
            } else {
                clean_themes(n.children, cards, depth + 1)
            };
            if depth < 2 {
                lemma_clean_themes_valid(n.children, cards, depth + 1);
            }
            let node = clean_node(n, sub.0, cards);
            let base = keep_known(n.ids + collect(n.children), cards);
            lemma_keep_known(n.ids + collect(n.children), cards);
            lemma_add_new(base, child_ids(sub.0));
            lemma_child_ids(sub.0);
            if drop_reason(node, cards) is None {
                assert forall|i: int| 0 <= i < node.ids.len() implies in_ids(cards, #[trigger] node.ids[i]) by {
                    let x = node.ids[i];
                    assert(node.ids.contains(x));
                    if base.contains(x) {
                        let k = choose|k: int| 0 <= k < base.len() && base[k] == x;
                        assert(in_ids(cards, base[k]));
                    } else {
                        assert(child_ids(sub.0).contains(x));
                        let j = choose|j: int| 0 <= j < sub.0.len() && #[trigger] sub.0[j].ids.contains(x);
                        assert(theme_ok(sub.0[j], cards, depth + 1));
                        let k = choose|k: int| 0 <= k < sub.0[j].ids.len() && sub.0[j].ids[k] == x;
                        assert(in_ids(cards, sub.0[j].ids[k]));
                    }
                }
                assert forall|j: int, x: i64|
                    0 <= j < node.children.len() && #[trigger] node.children[j].ids.contains(x) implies node.ids.contains(
                    x,
                ) by {
                    assert(child_ids(sub.0).contains(x));
                }
                assert(theme_ok(node, cards, depth));
            }
        }
    }
}

proof fn lemma_count_bound(nodes: Seq<NodeView>, cards: Seq<CardRow>, depth: nat)
    requires
        1 <= depth <= 2,
        forall|i: int| 0 <= i < nodes.len() ==> theme_ok(#[trigger] nodes[i], cards, depth),
    ensures
        0 <= count_themes(nodes) <= 4 * nodes.len(),
    decreases nodes,
{
    if nodes.len() > 0 {
        let n = nodes.last();
        let p = nodes.drop_last();
        assert(theme_ok(nodes[nodes.len() - 1], cards, depth));
        assert forall|i: int| 0 <= i < p.len() implies theme_ok(#[trigger] p[i], cards, depth) by {
            assert(p[i] == nodes[i]);
        }
        lemma_count_bound(p, cards, depth);
        if depth < 2 {
            assert forall|j: int| 0 <= j < n.children.len() implies #[trigger] n.children[j].children.len() == 0 by {
                assert(theme_ok(n.children[j], cards, depth + 1));
            }
            lemma_count_leaves(n.children);
            lemma_count_themes_nonneg(n.children);
        } else {
            assert(n.children =~= Seq::<NodeView>::empty());
            assert(count_themes(n.children) == 0);
        }
    }
}

proof fn lemma_count_leaves(nodes: Seq<NodeView>)
    requires
        forall|j: int| 0 <= j < nodes.len() ==> #[trigger] nodes[j].children.len() == 0,
    ensures
        count_themes(nodes) <= nodes.len(),
    decreases nodes,
{
    if nodes.len() > 0 {
        let p = nodes.drop_last();
        assert(nodes[nodes.len() - 1].children.len() == 0);
        assert(nodes.last().children =~= Seq::<NodeView>::empty());
        assert(count_themes(nodes.last().children) == 0);
        assert forall|j: int| 0 <= j < p.len() implies #[trigger] p[j].children.len() == 0 by {
            assert(p[j] == nodes[j]);
        }
        lemma_count_leaves(p);
    }
}

proof fn lemma_count_small(tops: Seq<NodeView>, cards: Seq<CardRow>)
    requires
        tops.len() <= 12,
        forall|i: int| 0 <= i < tops.len() ==> theme_ok(#[trigger] tops[i], cards, 1),
    ensures
        0 <= count_themes(tops) <= 48,
{
    lemma_count_bound(tops, cards, 1);
}

// ---------- planning a request ----------

/// A chapter's share of a chapter-by-chapter run: its title, its prompt
/// lines and the card ids each line stands for.
pub struct ChapterPack {
    pub title: String,
    pub lines: Vec<String>,
    pub clusters: Vec<Vec<i64>>,
}

/// How a book is sent to the model: in one request, or chapter by chapter
/// and then merged.
pub enum CluePlan {
    OneShot { lines: Vec<String>, clusters: Vec<Vec<i64>> },
    ByChapter { chapters: Vec<ChapterPack> },
}

pub open spec fn shift(x: i64) -> int {
    x + 0x8000_0000_0000_0000
}

fn shifted(x: i64) -> (r: u64)
    ensures
        r as int == shift(x),
{
    ((x as i128) + 0x8000_0000_0000_0000i128) as u64
}

pub open spec fn uid_or_last(c: CardRow) -> i64 {
    match c.chapter_uid {
        Some(u) => u,
        None => i64::MAX,
    }
}

/// Cards in reading order: by chapter id (cards without one last), then
/// by creation time, then by id.
pub open spec fn chapter_order() -> spec_fn(CardRow) -> int {
    |c: CardRow|
        shift(uid_or_last(c)) * 0x1_0000_0000_0000_0000_0000_0000_0000_0000 + shift(c.created_at)
            * 0x1_0000_0000_0000_0000 + shift(c.id)
}

fn copy_slice(cards: &[CardRow]) -> (r: Vec<CardRow>)
    ensures
        crate::ai::cards_match(r@, cards@),
{
    let mut out: Vec<CardRow> = Vec::new();
    let mut i: usize = 0;
    while i < cards.len()
        invariant
            i <= cards@.len(),
            out@.len() == i,
            forall|k: int| 0 <= k < i ==> same_card(#[trigger] out@[k], cards@[k]),
        decreases cards@.len() - i,
    {
        out.push(cards[i].duplicate());
        i = i + 1;
    }
    out
}

/// Copies of the cards in reading order (a stable sort).
fn sorted_by_chapter(cards: &[CardRow]) -> (r: Vec<CardRow>)
    ensures
        crate::ai::sorted_copy_of(cards@, r@, chapter_order()),
{
    let copies = copy_slice(cards);
    let mut keys: Vec<Key3> = Vec::new();
    let mut i: usize = 0;
    while i < copies.len()
        invariant
            i <= copies@.len(),
            keys@.len() == i,
            forall|k: int| 0 <= k < i ==> key_value(keys@[k]) == (chapter_order())(#[trigger] copies@[k]),
        decreases copies@.len() - i,
    {
        let c = &copies[i];
        let u: i64 = match c.chapter_uid {
            Some(u) => u,
            None => i64::MAX,
        };
        keys.push((shifted(u), shifted(c.created_at), shifted(c.id)));
        i = i + 1;
    }
    let ghost cl = copies@;
    let r = stable_sort_cards(copies, keys, Ghost(chapter_order()));
    proof {
        let p = choose|p: Seq<int>| is_stable_sort(cl, r@, chapter_order(), p);
        assert(crate::ai::cards_match(cl, cards@) && is_stable_sort(cl, r@, chapter_order(), p));
    }
    r
}

/// One line per card, in reading order.
pub fn pack_for_prompt(cards: &[CardRow]) -> (r: Vec<String>)
    ensures
        exists|s: Seq<CardRow>|
            crate::ai::sorted_copy_of(cards@, s, chapter_order()) && strings_view(r@) == s.map_values(
                |c: CardRow| card_line(c),
            ),
{
    let sorted = sorted_by_chapter(cards);
    let mut out: Vec<String> = Vec::new();
    let mut i: usize = 0;
    while i < sorted.len()
        invariant
            i <= sorted@.len(),
            strings_view(out@) == sorted@.take(i as int).map_values(|c: CardRow| card_line(c)),
        decreases sorted@.len() - i,
    {
        let ghost before = strings_view(out@);
        let line = pack_card_line(&sorted[i]);
        let ghost lv = line@;
        out.push(line);
        proof {
            assert(strings_view(out@) =~= before.push(lv));
            assert(sorted@.take(i + 1) =~= sorted@.take(i as int).push(sorted@[i as int]));
            assert(sorted@.take(i + 1).map_values(|c: CardRow| card_line(c)) =~= sorted@.take(i as int).map_values(
                |c: CardRow| card_line(c),
            ).push(card_line(sorted@[i as int])));
        }
        i = i + 1;
    }
    assert(sorted@.take(sorted@.len() as int) =~= sorted@);
    out
}

/// Consecutive cards of the same chapter name, with that name.
pub open spec fn groups(cs: Seq<CardRow>) -> Seq<(Seq<char>, Seq<CardRow>)>
    decreases cs.len(),
{
    if cs.len() == 0 {
        Seq::empty()
    } else {
        let g = groups(cs.drop_last());
        let c = cs.last();
        let t = chapter_name(c.chapter_title);
        if g.len() > 0 && g.last().0 == t {
            g.update(g.len() - 1, (t, g.last().1.push(c)))
        } else {
            g.push((t, seq![c]))
        }
    }
}

pub open spec fn groups_view(v: Seq<(Vec<char>, Vec<CardRow>)>) -> Seq<(Seq<char>, Seq<CardRow>)> {
    v.map_values(|g: (Vec<char>, Vec<CardRow>)| (g.0@, g.1@))
}

fn group_by_chapter(sorted: Vec<CardRow>) -> (r: Vec<(Vec<char>, Vec<CardRow>)>)
    ensures
        groups_view(r@) == groups(sorted@),
{
    let ghost orig = sorted@;
    let len = sorted.len();
    let mut rest = sorted;
    let mut out: Vec<(Vec<char>, Vec<CardRow>)> = Vec::new();
    let mut k: usize = 0;
    assert(orig.take(0) =~= Seq::<CardRow>::empty());
    assert(rest@ =~= orig.skip(0));
    while rest.len() > 0
        invariant
            orig.len() == len,
            k + rest@.len() == orig.len(),
            rest@ == orig.skip(k as int),
            groups_view(out@) == groups(orig.take(k as int)),
        decreases rest@.len(),
    {
        let c = rest.remove(0);
        let ghost cv = c;
        proof {
            assert(orig.take(k + 1).drop_last() =~= orig.take(k as int));
            assert(orig.take(k + 1).last() == c);
        }
        let t = chapter_name_of(&c.chapter_title);
        let ghost before = groups_view(out@);
        let joins = out.len() > 0 && same_text(&out[out.len() - 1].0, &t);
        if joins {
            let mut g = out.pop().unwrap();
            proof {
                assert(before.last() == (g.0@, g.1@));
            }
            g.1.push(c);
            out.push(g);
            assert(groups_view(out@) =~= before.update(before.len() - 1, (t@, before.last().1.push(cv))));
        } else {
            let mut one: Vec<CardRow> = Vec::new();
            one.push(c);
            out.push((t, one));
            assert(groups_view(out@) =~= before.push((t@, seq![cv])));
        }
        k = k + 1;
        assert(rest@ =~= orig.skip(k as int));
    }
    assert(orig.take(len as int) =~= orig);
    out
}

/// A short quote: under 12 characters once trimmed.
pub open spec fn is_short(c: CardRow) -> bool {
    trim(c.text@).len() < 12
}

/// What near-duplicate cards share: their first 16 trimmed characters,
/// without whitespace and final marks.
pub open spec fn cluster_key(c: CardRow) -> Seq<char> {
    strip_marks(prefix(trim(c.text@), 16))
}

/// How strongly a card should stand for its cluster: starred, a thought,
/// with a note.
pub open spec fn weight(c: CardRow) -> int {
    (if c.starred {
        4int
    } else {
        0int
    }) + (if c.kind@ == "thought"@ {
        3int
    } else {
        0int
    }) + (if trim(c.note@).len() > 0 {
        2int
    } else {
        0int
    })
}

/// `a` ranks above `b`: by weight, then text length, then id.
pub open spec fn ranks_above(a: CardRow, b: CardRow) -> bool {
    weight(a) > weight(b) || (weight(a) == weight(b) && (a.text@.len() > b.text@.len() || (a.text@.len()
        == b.text@.len() && a.id > b.id)))
}

/// The card that stands for a cluster: the highest ranked, the later one
/// among equals.
pub open spec fn rep_of(cl: Seq<CardRow>) -> CardRow
    decreases cl.len(),
{
    if cl.len() <= 1 {
        cl[0]
    } else {
        let r = rep_of(cl.drop_last());
        if ranks_above(r, cl.last()) {
            r
        } else {
            cl.last()
        }
    }
}

/// Cards in order, each joining the previous cluster when it is a short
/// quote or shares that cluster's representative's key.
pub open spec fn clusters(cs: Seq<CardRow>) -> Seq<Seq<CardRow>>
    decreases cs.len(),
{
    if cs.len() == 0 {
        Seq::empty()
    } else {
        let g = clusters(cs.drop_last());
        let c = cs.last();
        if g.len() > 0 && (is_short(c) || (cluster_key(c).len() > 0 && cluster_key(rep_of(g.last())).len() > 0
            && cluster_key(c) == cluster_key(rep_of(g.last())))) {
            g.update(g.len() - 1, g.last().push(c))
        } else {
            g.push(seq![c])
        }
    }
}

pub open spec fn derefs(s: Seq<&CardRow>) -> Seq<CardRow> {
    s.map_values(|c: &CardRow| *c)
}

pub open spec fn cluster_views(v: Seq<Vec<&CardRow>>) -> Seq<Seq<CardRow>> {
    v.map_values(|cl: Vec<&CardRow>| derefs(cl@))
}

fn weight_of(c: &CardRow) -> (r: u8)
    ensures
        r as int == weight(*c),
{
    let mut s: u8 = 0;
    if c.starred {
        s = s + 4;
    }
    if string_is(&c.kind, "thought") {
        s = s + 3;
    }
    if trimmed(c.note.as_str()).len() > 0 {
        s = s + 2;
    }
    s
}

fn ranks_above_of(a: &CardRow, b: &CardRow) -> (r: bool)
    ensures
        r == ranks_above(*a, *b),
{
    let wa = weight_of(a);
    let wb = weight_of(b);
    let la = chars_of(a.text.as_str()).len();
    let lb = chars_of(b.text.as_str()).len();
    wa > wb || (wa == wb && (la > lb || (la == lb && a.id > b.id)))
}

/// The card that stands for a cluster.
pub fn pick_rep<'a>(cluster: &[&'a CardRow]) -> (r: &'a CardRow)
    requires
        cluster@.len() > 0,
    ensures
        *r == rep_of(derefs(cluster@)),
{
    let mut best: &CardRow = cluster[0];
    let mut i: usize = 1;
    assert(derefs(cluster@).take(1).len() == 1);
    while i < cluster.len()
        invariant
            1 <= i <= cluster@.len(),
            *best == rep_of(derefs(cluster@).take(i as int)),
        decreases cluster@.len() - i,
    {
        proof {
            assert(derefs(cluster@).take(i + 1).drop_last() =~= derefs(cluster@).take(i as int));
        }
        if !ranks_above_of(best, cluster[i]) {
            best = cluster[i];
        }
        i = i + 1;
    }
    assert(derefs(cluster@).take(cluster@.len() as int) =~= derefs(cluster@));
    best
}

fn cluster_key_of(c: &CardRow) -> (r: Vec<char>)
    ensures
        r@ == cluster_key(*c),
{
    strip_marks_of(&prefix_chars(&trimmed(c.text.as_str()), 16))
}

/// Splits cards, in order, into clusters of near-duplicates.
pub fn cluster_in_order<'a>(cards: &[&'a CardRow]) -> (r: Vec<Vec<&'a CardRow>>)
    ensures
        cluster_views(r@) == clusters(derefs(cards@)),
{
    let ghost d = derefs(cards@);
    let mut out: Vec<Vec<&'a CardRow>> = Vec::new();
    let mut i: usize = 0;
    while i < cards.len()
        invariant
            i <= cards@.len(),
            d == derefs(cards@),
            cluster_views(out@) == clusters(d.take(i as int)),
            forall|k: int| 0 <= k < out@.len() ==> (#[trigger] out@[k])@.len() > 0,
        decreases cards@.len() - i,
    {
        let c: &CardRow = cards[i];
        proof {
            assert(d.take(i + 1).drop_last() =~= d.take(i as int));
            assert(d.take(i + 1).last() == *c);
        }
        let short = trimmed(c.text.as_str()).len() < 12;
        let key = cluster_key_of(c);
        let ghost before = cluster_views(out@);
        let mut joins = false;
        if out.len() > 0 {
            let last_key = cluster_key_of(pick_rep(out[out.len() - 1].as_slice()));
            proof {
                assert(before.last() == derefs(out@[out@.len() - 1]@));
            }
            joins = short || (key.len() > 0 && last_key.len() > 0 && same_text(&key, &last_key));
        }
        if joins {
            let ghost whole = out@;
            let mut g = out.pop().unwrap();
            let ghost popped = cluster_views(out@);
            proof {
                assert(out@ =~= whole.drop_last());
                assert(popped =~= before.drop_last());
                assert(g == whole.last());
                assert(derefs(g@) == before.last());
            }
            g.push(c);
            assert(derefs(g@) =~= before.last().push(*c));
            let ghost gv = derefs(g@);
            out.push(g);
            assert(cluster_views(out@) =~= popped.push(gv));
            assert(cluster_views(out@) =~= before.update(before.len() - 1, before.last().push(*c)));
        } else {
            let mut one: Vec<&'a CardRow> = Vec::new();
            one.push(c);
            assert(derefs(one@) =~= seq![*c]);
            let ghost ov = derefs(one@);
            out.push(one);
            assert(cluster_views(out@) =~= before.push(ov));
        }
        i = i + 1;
    }
    assert(d.take(cards@.len() as int) =~= d);
    out
}

/// The `#id` tags of the cluster's cards other than the representative.
pub open spec fn mate_tags(cl: Seq<CardRow>, rep_id: i64) -> Seq<Seq<char>>
    decreases cl.len(),
{
    if cl.len() == 0 {
        Seq::empty()
    } else {
        let r = mate_tags(cl.drop_last(), rep_id);
        if cl.last().id != rep_id {
            r.push("#"@ + dec_int(cl.last().id as int))
        } else {
            r
        }
    }
}

/// A cluster as one line: its representative's line, then the other
/// cards' ids.
pub open spec fn cluster_line(cl: Seq<CardRow>) -> Seq<char> {
    let rep = rep_of(cl);
    if cl.len() > 1 {
        card_line(rep) + " | 同簇 "@ + join_with(mate_tags(cl, rep.id), ","@)
    } else {
        card_line(rep)
    }
}

pub fn pack_cluster_line(cluster: &[&CardRow]) -> (r: String)
    requires
        cluster@.len() > 0,
    ensures
        r@ == cluster_line(derefs(cluster@)),
{
    let rep = pick_rep(cluster);
    let mut line = card_line_chars(rep);
    if cluster.len() > 1 {
        let mut tags: Vec<Vec<char>> = Vec::new();
        let mut i: usize = 0;
        while i < cluster.len()
            invariant
                i <= cluster@.len(),
                views_of(tags@) == mate_tags(derefs(cluster@).take(i as int), rep.id),
            decreases cluster@.len() - i,
        {
            proof {
                assert(derefs(cluster@).take(i + 1).drop_last() =~= derefs(cluster@).take(i as int));
            }
            if cluster[i].id != rep.id {
                let mut t = chars_of("#");
                push_dec_i64(&mut t, cluster[i].id);
                let ghost before = views_of(tags@);
                let ghost tv = t@;
                tags.push(t);
                assert(views_of(tags@) =~= before.push(tv));
            }
            i = i + 1;
        }
        assert(derefs(cluster@).take(cluster@.len() as int) =~= derefs(cluster@));
        push_str(&mut line, " | 同簇 ");
        push_joined(&mut line, &tags, ",");
    }
    string_of(&line)
}

pub open spec fn singles(g: Seq<CardRow>) -> Seq<Seq<CardRow>> {
    g.map_values(|c: CardRow| seq![c])
}

pub open spec fn clusters_for(g: Seq<CardRow>, cluster: bool) -> Seq<Seq<CardRow>> {
    if cluster {
        clusters(g)
    } else {
        singles(g)
    }
}

pub open spec fn ids_of_cluster(cl: Seq<CardRow>) -> Seq<i64> {
    cl.map_values(|c: CardRow| c.id)
}

/// A chapter's pack: its name, one line per cluster, and each cluster's
/// card ids.
pub open spec fn pack_spec(g: (Seq<char>, Seq<CardRow>), cluster: bool) -> (Seq<char>, Seq<Seq<char>>, Seq<Seq<i64>>) {
    let cls = clusters_for(g.1, cluster);
    (g.0, cls.map_values(|cl: Seq<CardRow>| cluster_line(cl)), cls.map_values(|cl: Seq<CardRow>| ids_of_cluster(cl)))
}

pub open spec fn packs_spec(sorted: Seq<CardRow>, cluster: bool) -> Seq<(Seq<char>, Seq<Seq<char>>, Seq<Seq<i64>>)> {
    groups(sorted).map_values(|g: (Seq<char>, Seq<CardRow>)| pack_spec(g, cluster))
}

pub open spec fn id_lists(v: Seq<Vec<i64>>) -> Seq<Seq<i64>> {
    v.map_values(|x: Vec<i64>| x@)
}

pub open spec fn pack_view(p: ChapterPack) -> (Seq<char>, Seq<Seq<char>>, Seq<Seq<i64>>) {
    (p.title@, strings_view(p.lines@), id_lists(p.clusters@))
}

pub open spec fn packs_view(v: Seq<ChapterPack>) -> Seq<(Seq<char>, Seq<Seq<char>>, Seq<Seq<i64>>)> {
    v.map_values(|p: ChapterPack| pack_view(p))
}

proof fn lemma_groups_nonempty(cs: Seq<CardRow>)
    ensures
        forall|k: int| 0 <= k < groups(cs).len() ==> (#[trigger] groups(cs)[k]).1.len() > 0,
    decreases cs.len(),
{
    if cs.len() > 0 {
        lemma_groups_nonempty(cs.drop_last());
        let g = groups(cs.drop_last());
        assert forall|k: int| 0 <= k < groups(cs).len() implies (#[trigger] groups(cs)[k]).1.len() > 0 by {
            if k < g.len() - 1 || (k == g.len() - 1 && !(g.last().0 == chapter_name(cs.last().chapter_title))) {
                assert(groups(cs)[k] == g[k]);
            }
        }
    }
}

proof fn lemma_clusters_nonempty(cs: Seq<CardRow>)
    ensures
        forall|k: int| 0 <= k < clusters(cs).len() ==> (#[trigger] clusters(cs)[k]).len() > 0,
    decreases cs.len(),
{
    if cs.len() > 0 {
        lemma_clusters_nonempty(cs.drop_last());
        let g = clusters(cs.drop_last());
        assert forall|k: int| 0 <= k < clusters(cs).len() implies (#[trigger] clusters(cs)[k]).len() > 0 by {
            if k < g.len() - 1 {
                assert(clusters(cs)[k] == g[k]);
            } else if k == g.len() - 1 {
                assert(clusters(cs)[k] == g[k] || clusters(cs)[k] == g[k].push(cs.last()));
            }
        }
    }
}

fn cluster_ids_of(cl: &Vec<&CardRow>) -> (r: Vec<i64>)
    ensures
        r@ == ids_of_cluster(derefs(cl@)),
{
    let mut out: Vec<i64> = Vec::new();
    let mut i: usize = 0;
    while i < cl.len()
        invariant
            i <= cl@.len(),
            out@ == ids_of_cluster(derefs(cl@).take(i as int)),
        decreases cl@.len() - i,
    {
        out.push(cl[i].id);
        i = i + 1;
        assert(out@ =~= ids_of_cluster(derefs(cl@).take(i as int)));
    }
    assert(derefs(cl@).take(cl@.len() as int) =~= derefs(cl@));
    out
}

fn pack_group(title: &Vec<char>, group: &Vec<CardRow>, cluster: bool) -> (r: ChapterPack)
    requires
        group@.len() > 0,
    ensures
        pack_view(r) == pack_spec((title@, group@), cluster),
{
    let mut refs: Vec<&CardRow> = Vec::new();
    let mut i: usize = 0;
    while i < group.len()
        invariant
            i <= group@.len(),
            derefs(refs@) == group@.take(i as int),
        decreases group@.len() - i,
    {
        let ghost before = refs@;
        refs.push(&group[i]);
        proof {
            assert(refs@ == before.push(&group@[i as int]));
            assert(derefs(refs@) =~= derefs(before).push(group@[i as int]));
            assert(group@.take(i + 1) =~= group@.take(i as int).push(group@[i as int]));
        }
        i = i + 1;
    }
    assert(group@.take(group@.len() as int) =~= group@);
    let cls: Vec<Vec<&CardRow>> = if cluster {
        cluster_in_order(refs.as_slice())
    } else {
        let mut v: Vec<Vec<&CardRow>> = Vec::new();
        let mut j: usize = 0;
        while j < refs.len()
            invariant
                j <= refs@.len(),
                cluster_views(v@) == singles(derefs(refs@).take(j as int)),
            decreases refs@.len() - j,
        {
            let mut one: Vec<&CardRow> = Vec::new();
            one.push(refs[j]);
            assert(derefs(one@) =~= seq![*refs@[j as int]]);
            let ghost before = cluster_views(v@);
            let ghost ov = derefs(one@);
            v.push(one);
            j = j + 1;
            assert(cluster_views(v@) =~= before.push(ov));
            assert(cluster_views(v@) =~= singles(derefs(refs@).take(j as int)));
        }
        assert(derefs(refs@).take(refs@.len() as int) =~= derefs(refs@));
        v
    };
    let ghost cv = clusters_for(group@, cluster);
    assert(cluster_views(cls@) == cv);
    proof {
        lemma_clusters_nonempty(group@);
    }
    let mut lines: Vec<String> = Vec::new();
    let mut ids: Vec<Vec<i64>> = Vec::new();
    let mut k: usize = 0;
    while k < cls.len()
        invariant
            k <= cls@.len(),
            cluster_views(cls@) == cv,
            cv == clusters_for(group@, cluster),
            forall|t: int| 0 <= t < cv.len() ==> (#[trigger] cv[t]).len() > 0,
            strings_view(lines@) == cv.take(k as int).map_values(|cl: Seq<CardRow>| cluster_line(cl)),
            id_lists(ids@) == cv.take(k as int).map_values(|cl: Seq<CardRow>| ids_of_cluster(cl)),
        decreases cls@.len() - k,
    {
        proof {
            assert(cv[k as int] == derefs(cls@[k as int]@));
            assert(cv.take(k + 1) =~= cv.take(k as int).push(cv[k as int]));
        }
        let ghost lb = strings_view(lines@);
        let ghost ib = id_lists(ids@);
        let line = pack_cluster_line(cls[k].as_slice());
        let ghost lv = line@;
        lines.push(line);
        let cid = cluster_ids_of(&cls[k]);
        let ghost iv = cid@;
        ids.push(cid);
        k = k + 1;
        proof {
            assert(strings_view(lines@) =~= lb.push(lv));
            assert(id_lists(ids@) =~= ib.push(iv));
            assert(cv.take(k as int).map_values(|cl: Seq<CardRow>| cluster_line(cl)) =~= cv.take(k - 1).map_values(
                |cl: Seq<CardRow>| cluster_line(cl),
            ).push(cluster_line(cv[k - 1])));
            assert(cv.take(k as int).map_values(|cl: Seq<CardRow>| ids_of_cluster(cl)) =~= cv.take(k - 1).map_values(
                |cl: Seq<CardRow>| ids_of_cluster(cl),
            ).push(ids_of_cluster(cv[k - 1])));
        }
    }
    assert(cv.take(cls@.len() as int) =~= cv);
    ChapterPack { title: string_of(title), lines, clusters: ids }
}

/// Packs per chapter, in reading order; with `cluster`, near-duplicate
/// cards share a line.
fn packs_by_chapter(cards: &[CardRow], cluster: bool) -> (r: Vec<ChapterPack>)
    ensures
        exists|s: Seq<CardRow>|
            crate::ai::sorted_copy_of(cards@, s, chapter_order()) && packs_view(r@) == packs_spec(s, cluster),
{
    let sorted = sorted_by_chapter(cards);
    let ghost s = sorted@;
    let gs = group_by_chapter(sorted);
    proof {
        lemma_groups_nonempty(s);
    }
    let mut out: Vec<ChapterPack> = Vec::new();
    let mut i: usize = 0;
    while i < gs.len()
        invariant
            i <= gs@.len(),
            groups_view(gs@) == groups(s),
            forall|k: int| 0 <= k < groups(s).len() ==> (#[trigger] groups(s)[k]).1.len() > 0,
            packs_view(out@) == groups(s).take(i as int).map_values(
                |g: (Seq<char>, Seq<CardRow>)| pack_spec(g, cluster),
            ),
        decreases gs@.len() - i,
    {
        proof {
            assert(groups(s)[i as int] == (gs@[i as int].0@, gs@[i as int].1@));
        }
        let ghost before = packs_view(out@);
        let p = pack_group(&gs[i].0, &gs[i].1, cluster);
        let ghost pv = pack_view(p);
        out.push(p);
        i = i + 1;
        proof {
            assert(packs_view(out@) =~= before.push(pv));
            assert(groups(s).take(i as int).map_values(|g: (Seq<char>, Seq<CardRow>)| pack_spec(g, cluster))
                =~= groups(s).take(i - 1).map_values(|g: (Seq<char>, Seq<CardRow>)| pack_spec(g, cluster)).push(
                pack_spec(groups(s)[i - 1], cluster),
            ));
        }
    }
    assert(groups(s).take(gs@.len() as int) =~= groups(s));
    assert(packs_view(out@) == packs_spec(s, cluster));
    out
}

pub open spec fn one_id_each(cards: Seq<CardRow>) -> Seq<Seq<i64>> {
    cards.map_values(|c: CardRow| seq![c.id])
}

/// How many lines the packs hold together.
pub open spec fn total_lines(ps: Seq<(Seq<char>, Seq<Seq<char>>, Seq<Seq<i64>>)>) -> int
    decreases ps.len(),
{
    if ps.len() == 0 {
        0
    } else {
        total_lines(ps.drop_last()) + ps.last().1.len()
    }
}

pub open spec fn all_lines(ps: Seq<(Seq<char>, Seq<Seq<char>>, Seq<Seq<i64>>)>) -> Seq<Seq<char>>
    decreases ps.len(),
{
    if ps.len() == 0 {
        Seq::empty()
    } else {
        all_lines(ps.drop_last()) + ps.last().1
    }
}

pub open spec fn all_clusters(ps: Seq<(Seq<char>, Seq<Seq<char>>, Seq<Seq<i64>>)>) -> Seq<Seq<i64>>
    decreases ps.len(),
{
    if ps.len() == 0 {
        Seq::empty()
    } else {
        all_clusters(ps.drop_last()) + ps.last().2
    }
}

/// What a plan says, for the copy `s` of the cards in reading order: up to
/// 80 cards go in one request, one line each; up to 400 go chapter by
/// chapter; beyond that near-duplicates are clustered, and the clustered
/// lines go in one request when there are at most 80 of them.
pub open spec fn plan_ok(cards: Seq<CardRow>, s: Seq<CardRow>, plan: CluePlan) -> bool {
    if cards.len() <= 80 {
        plan matches CluePlan::OneShot { lines, clusters } && strings_view(lines@) == s.map_values(
            |c: CardRow| card_line(c),
        ) && id_lists(clusters@) == one_id_each(cards)
    } else if cards.len() <= 400 {
        plan matches CluePlan::ByChapter { chapters } && packs_view(chapters@) == packs_spec(s, false)
    } else {
        let ps = packs_spec(s, true);
        if total_lines(ps) <= 80 {
            plan matches CluePlan::OneShot { lines, clusters } && strings_view(lines@) == all_lines(ps)
                && id_lists(clusters@) == all_clusters(ps)
        } else {
            plan matches CluePlan::ByChapter { chapters } && packs_view(chapters@) == ps
        }
    }
}

/// Decides how a book is sent to the model.
pub fn plan_clue(cards: &[CardRow]) -> (r: CluePlan)
    ensures
        exists|s: Seq<CardRow>| crate::ai::sorted_copy_of(cards@, s, chapter_order()) && plan_ok(cards@, s, r),
{
    let n = cards.len();
    if n <= 80 {
        let sorted = sorted_by_chapter(cards);
        let mut lines: Vec<String> = Vec::new();
        let mut i: usize = 0;
        while i < sorted.len()
            invariant
                i <= sorted@.len(),
                strings_view(lines@) == sorted@.take(i as int).map_values(|c: CardRow| card_line(c)),
            decreases sorted@.len() - i,
        {
            let ghost before = strings_view(lines@);
            let line = pack_card_line(&sorted[i]);
            let ghost lv = line@;
            lines.push(line);
            proof {
                assert(strings_view(lines@) =~= before.push(lv));
                assert(sorted@.take(i + 1).map_values(|c: CardRow| card_line(c)) =~= sorted@.take(i as int).map_values(
                    |c: CardRow| card_line(c),
                ).push(card_line(sorted@[i as int])));
            }
            i = i + 1;
        }
        assert(sorted@.take(sorted@.len() as int) =~= sorted@);
        let mut clusters: Vec<Vec<i64>> = Vec::new();
        let mut j: usize = 0;
        while j < cards.len()
            invariant
                j <= cards@.len(),
                id_lists(clusters@) == one_id_each(cards@.take(j as int)),
            decreases cards@.len() - j,
        {
            let mut one: Vec<i64> = Vec::new();
            one.push(cards[j].id);
            let ghost before = id_lists(clusters@);
            let ghost ov = one@;
            clusters.push(one);
            j = j + 1;
            assert(id_lists(clusters@) =~= before.push(ov));
            assert(id_lists(clusters@) =~= one_id_each(cards@.take(j as int)));
        }
        assert(cards@.take(cards@.len() as int) =~= cards@);
        let r = CluePlan::OneShot { lines, clusters };
        assert(plan_ok(cards@, sorted@, r));
        return r;
    }
    if n <= 400 {
        let chapters = packs_by_chapter(cards, false);
        let ghost s = choose|s: Seq<CardRow>|
            crate::ai::sorted_copy_of(cards@, s, chapter_order()) && packs_view(chapters@) == packs_spec(s, false);
        let r = CluePlan::ByChapter { chapters };
        assert(plan_ok(cards@, s, r));
        return r;
    }
    let chapters = packs_by_chapter(cards, true);
    let ghost s = choose|s: Seq<CardRow>|
        crate::ai::sorted_copy_of(cards@, s, chapter_order()) && packs_view(chapters@) == packs_spec(s, true);
    let ghost ps = packs_view(chapters@);
    assert(ps == packs_spec(s, true));
    let mut total: usize = 0;
    let mut over = false;
    let mut i: usize = 0;
    while i < chapters.len() && !over
        invariant
            i <= chapters@.len(),
            ps == packs_view(chapters@),
            total <= 80,
            !over ==> total == total_lines(ps.take(i as int)),
            over ==> total_lines(ps) > 80,
        decreases chapters@.len() - i,
    {
        proof {
            assert(ps.take(i + 1).drop_last() =~= ps.take(i as int));
            lemma_total_lines_prefix(ps, i + 1);
        }
        let m = chapters[i].lines.len();
        if m > 80 - total {
            over = true;
        } else {
            total = total + m;
        }
        i = i + 1;
    }
    if !over {
        assert(ps.take(chapters@.len() as int) =~= ps);
    }
    if over {
        let r = CluePlan::ByChapter { chapters };
        assert(plan_ok(cards@, s, r));
        return r;
    }
    let len = chapters.len();
    let mut lines: Vec<String> = Vec::new();
    let mut clusters: Vec<Vec<i64>> = Vec::new();
    let mut rest = chapters;
    let mut k: usize = 0;
    assert(packs_view(rest@) =~= ps.skip(0));
    while rest.len() > 0
        invariant
            ps.len() == len,
            k + rest@.len() == ps.len(),
            packs_view(rest@) == ps.skip(k as int),
            strings_view(lines@) == all_lines(ps.take(k as int)),
            id_lists(clusters@) == all_clusters(ps.take(k as int)),
        decreases rest@.len(),
    {
        let ghost old_rest = rest@;
        let ch = rest.remove(0);
        proof {
            assert(packs_view(old_rest)[0] == pack_view(ch));
            assert(ps[k as int] == pack_view(ch));
            assert(ps.take(k + 1).drop_last() =~= ps.take(k as int));
        }
        let ChapterPack { title: _, lines: mut ls, clusters: mut cs } = ch;
        let ghost lb = strings_view(lines@);
        let ghost cb = id_lists(clusters@);
        let ghost lsv = strings_view(ls@);
        let ghost csv = id_lists(cs@);
        lines.append(&mut ls);
        clusters.append(&mut cs);
        k = k + 1;
        proof {
            assert(strings_view(lines@) =~= lb + lsv);
            assert(id_lists(clusters@) =~= cb + csv);
            assert forall|t: int| 0 <= t < rest@.len() implies #[trigger] packs_view(rest@)[t] == ps.skip(k as int)[t] by {
                assert(rest@[t] == old_rest[t + 1]);
                assert(packs_view(old_rest)[t + 1] == pack_view(old_rest[t + 1]));
            }
            assert(packs_view(rest@) =~= ps.skip(k as int));
        }
    }
    assert(ps.take(ps.len() as int) =~= ps);
    let r = CluePlan::OneShot { lines, clusters };
    assert(plan_ok(cards@, s, r));
    r
}

proof fn lemma_total_lines_prefix(ps: Seq<(Seq<char>, Seq<Seq<char>>, Seq<Seq<i64>>)>, i: int)
    requires
        0 <= i <= ps.len(),
    ensures
        total_lines(ps.take(i)) <= total_lines(ps),
    decreases ps.len() - i,
{
    if i < ps.len() {
        lemma_total_lines_prefix(ps, i + 1);
        assert(ps.take(i + 1).drop_last() =~= ps.take(i));
    } else {
        assert(ps.take(i) =~= ps);
    }
}

// ---------- cluster mates ----------

/// The cluster an id belongs to: the last one holding it.
pub open spec fn cluster_of(cls: Seq<Seq<i64>>, id: i64) -> Option<Seq<i64>>
    decreases cls.len(),
{
    if cls.len() == 0 {
        None
    } else if cls.last().contains(id) {
        Some(cls.last())
    } else {
        cluster_of(cls.drop_last(), id)
    }
}

/// The clusters of the cited ids, one after another.
pub open spec fn mates(cls: Seq<Seq<i64>>, ids: Seq<i64>) -> Seq<i64>
    decreases ids.len(),
{
    if ids.len() == 0 {
        Seq::empty()
    } else {
        mates(cls, ids.drop_last()) + match cluster_of(cls, ids.last()) {
            Some(cl) => cl,
            None => Seq::empty(),
        }
    }
}

/// Every node of the tree cites, after its own ids, the other members of
/// their clusters.
pub open spec fn expand_view(n: NodeView, cls: Seq<Seq<i64>>) -> NodeView
    decreases n,
{
    NodeView {
        id: n.id,
        label: n.label,
        kind: n.kind,
        summary: n.summary,
        ids: add_new(n.ids, mates(cls, n.ids)),
        children: Seq::new(
            n.children.len(),
            |i: int|
                if 0 <= i < n.children.len() {
                    expand_view(n.children[i], cls)
                } else {
                    blank_view()
                },
        ),
    }
}

fn cluster_of_id(clusters: &[Vec<i64>], id: i64) -> (r: Option<&Vec<i64>>)
    ensures
        match r {
            Some(cl) => cluster_of(id_lists(clusters@), id) == Some(cl@),
            None => cluster_of(id_lists(clusters@), id) is None,
        },
{
    let ghost cls = id_lists(clusters@);
    let mut i: usize = clusters.len();
    assert(cls.take(cls.len() as int) =~= cls);
    while i > 0
        invariant
            i <= clusters@.len(),
            cls == id_lists(clusters@),
            cluster_of(cls, id) == cluster_of(cls.take(i as int), id),
        decreases i,
    {
        assert(cls.take(i as int).drop_last() =~= cls.take(i - 1));
        assert(cls.take(i as int).last() == clusters@[i - 1]@);
        if contains_i64(&clusters[i - 1], id) {
            return Some(&clusters[i - 1]);
        }
        i = i - 1;
    }
    None
}

fn expand_ids(ids: Vec<i64>, clusters: &[Vec<i64>]) -> (r: Vec<i64>)
    ensures
        r@ == add_new(ids@, mates(id_lists(clusters@), ids@)),
{
    let ghost cls = id_lists(clusters@);
    let mut extra: Vec<i64> = Vec::new();
    let mut i: usize = 0;
    while i < ids.len()
        invariant
            i <= ids@.len(),
            cls == id_lists(clusters@),
            extra@ == mates(cls, ids@.take(i as int)),
        decreases ids@.len() - i,
    {
        proof {
            assert(ids@.take(i + 1).drop_last() =~= ids@.take(i as int));
        }
        match cluster_of_id(clusters, ids[i]) {
            Some(cl) => {
                let ghost base = extra@;
                let mut j: usize = 0;
                while j < cl.len()
                    invariant
                        j <= cl@.len(),
                        extra@ == base + cl@.take(j as int),
                    decreases cl@.len() - j,
                {
                    extra.push(cl[j]);
                    j = j + 1;
                    assert(extra@ =~= base + cl@.take(j as int));
                }
                assert(cl@.take(j as int) =~= cl@);
            },
            None => {
                assert(extra@ =~= extra@ + Seq::<i64>::empty());
            },
        }
        i = i + 1;
    }
    assert(ids@.take(ids@.len() as int) =~= ids@);
    add_new_of(ids, &extra)
}

fn expand_node(n: MindmapNode, clusters: &[Vec<i64>]) -> (r: MindmapNode)
    ensures
        node_view(r) == expand_view(node_view(n), id_lists(clusters@)),
    decreases n,
{
    let ghost nv = node_view(n);
    let ghost cls = id_lists(clusters@);
    proof {
        lemma_children_view(n);
    }
    let ghost orig = n.children@;
    let MindmapNode { id, label, kind, summary, source_card_ids, children } = n;
    let ids = expand_ids(source_card_ids, clusters);
    let len = children.len();
    let mut rest = children;
    let mut out: Vec<MindmapNode> = Vec::new();
    let mut k: usize = 0;
    assert(rest@ =~= orig.skip(0));
    while rest.len() > 0
        invariant
            orig == n.children@,
            orig.len() == len,
            cls == id_lists(clusters@),
            nv.children == nodes_view(orig),
            k + rest@.len() == orig.len(),
            rest@ == orig.skip(k as int),
            out@.len() == k,
            forall|t: int| 0 <= t < k ==> node_view(#[trigger] out@[t]) == expand_view(nv.children[t], cls),
        decreases rest@.len(),
    {
        let c = rest.remove(0);
        proof {
            assert(c == orig[k as int]);
            assert(decreases_to!(n => n.children@[k as int]));
        }
        let e = expand_node(c, clusters);
        out.push(e);
        k = k + 1;
        assert(rest@ =~= orig.skip(k as int));
    }
    let r = MindmapNode { id, label, kind, summary, source_card_ids: ids, children: out };
    proof {
        lemma_children_view(r);
        assert(node_view(r).children =~= expand_view(nv, cls).children);
        assert(node_view(r) == expand_view(nv, cls));
    }
    r
}

fn blank_node() -> (r: MindmapNode)
    ensures
        node_view(r) == blank_view(),
        r.children@.len() == 0,
{
    let r = MindmapNode {
        id: String::new(),
        label: String::new(),
        kind: String::new(),
        summary: None,
        source_card_ids: Vec::new(),
        children: Vec::new(),
    };
    proof {
        lemma_children_view(r);
        assert(node_view(r).children =~= Seq::<NodeView>::empty());
        assert(node_view(r) == blank_view());
    }
    r
}

/// Adds to every node of the tree the other members of the clusters its
/// cited cards belong to; nothing else changes.
pub fn expand_clusters(tree: &mut Mindmap, clusters: &[Vec<i64>])
    ensures
        node_view(final(tree).root) == expand_view(node_view(old(tree).root), id_lists(clusters@)),
        final(tree).book_id == old(tree).book_id,
        final(tree).title == old(tree).title,
        final(tree).mode == old(tree).mode,
        final(tree).input_hash == old(tree).input_hash,
        final(tree).prompt_version == old(tree).prompt_version,
        final(tree).stats == old(tree).stats,
        final(tree).warnings == old(tree).warnings,
{
    let mut root = blank_node();
    std::mem::swap(&mut root, &mut tree.root);
    tree.root = expand_node(root, clusters);
}

// ---------- progress of a run ----------

/// How many cards a pack stands for.
pub open spec fn cluster_total(cls: Seq<Seq<i64>>) -> int
    decreases cls.len(),
{
    if cls.len() == 0 {
        0
    } else {
        cluster_total(cls.drop_last()) + cls.last().len()
    }
}

/// A chapter is asked about when it stands for at least two cards.
pub open spec fn eligible(p: (Seq<char>, Seq<Seq<char>>, Seq<Seq<i64>>)) -> bool {
    cluster_total(p.2) >= 2
}

pub open spec fn eligible_count(ps: Seq<(Seq<char>, Seq<Seq<char>>, Seq<Seq<i64>>)>) -> nat
    decreases ps.len(),
{
    if ps.len() == 0 {
        0
    } else {
        eligible_count(ps.drop_last()) + (if eligible(ps.last()) {
            1nat
        } else {
            0nat
        })
    }
}

proof fn lemma_cluster_total_grows(cls: Seq<Seq<i64>>, i: int)
    requires
        0 <= i <= cls.len(),
    ensures
        0 <= cluster_total(cls.take(i)) <= cluster_total(cls),
    decreases cls.len() - i,
{
    if i < cls.len() {
        lemma_cluster_total_grows(cls, i + 1);
        assert(cls.take(i + 1).drop_last() =~= cls.take(i));
        lemma_cluster_total_nonneg(cls.take(i));
    } else {
        assert(cls.take(i) =~= cls);
        lemma_cluster_total_nonneg(cls);
    }
}

proof fn lemma_cluster_total_nonneg(cls: Seq<Seq<i64>>)
    ensures
        cluster_total(cls) >= 0,
    decreases cls.len(),
{
    if cls.len() > 0 {
        lemma_cluster_total_nonneg(cls.drop_last());
    }
}

/// Whether a chapter pack stands for at least two cards.
pub fn has_two_cards(ch: &ChapterPack) -> (r: bool)
    ensures
        r == eligible(pack_view(*ch)),
{
    let ghost cls = id_lists(ch.clusters@);
    let mut total: usize = 0;
    let mut i: usize = 0;
    while i < ch.clusters.len() && total < 2
        invariant
            i <= ch.clusters@.len(),
            cls == id_lists(ch.clusters@),
            total < 2 ==> total == cluster_total(cls.take(i as int)),
            total >= 2 ==> cluster_total(cls) >= 2,
            total <= 2,
        decreases ch.clusters@.len() - i,
    {
        proof {
            assert(cls.take(i + 1).drop_last() =~= cls.take(i as int));
            lemma_cluster_total_grows(cls, i + 1);
        }
        let m = ch.clusters[i].len();
        if m >= 2 - total {
            total = 2;
        } else {
            total = total + m;
        }
        i = i + 1;
    }
    if total < 2 {
        assert(cls.take(cls.len() as int) =~= cls);
    }
    total >= 2
}

pub open spec fn plan_chapter_count(plan: CluePlan) -> nat {
    match plan {
        CluePlan::OneShot { .. } => 0,
        CluePlan::ByChapter { chapters } => chapters@.len(),
    }
}

/// The steps and the opening message of a run: one step for a single
/// request; else one per chapter asked about, plus a merge when there are
/// several.
pub open spec fn progress_spec(plan: CluePlan, card_n: nat) -> (int, Seq<char>) {
    match plan {
        CluePlan::OneShot { .. } => (1, dec(card_n) + " 张卡片，全书一次归纳"@),
        CluePlan::ByChapter { chapters } => {
            let n = eligible_count(packs_view(chapters@));
            (if n > 1 {
                n + 1int
            } else {
                n as int
            }, dec(card_n) + " 张卡片，按 "@ + dec(n) + " 章归纳"@)
        },
    }
}

pub fn plan_progress(plan: &CluePlan, card_n: usize) -> (r: (i64, String))
    requires
        plan_chapter_count(*plan) < 0x7fff_ffff_ffff_ffff,
    ensures
        r.0 == progress_spec(*plan, card_n as nat).0,
        r.1@ == progress_spec(*plan, card_n as nat).1,
{
    match plan {
        CluePlan::OneShot { .. } => {
            let mut m: Vec<char> = Vec::new();
            push_dec_usize(&mut m, card_n);
            push_str(&mut m, " 张卡片，全书一次归纳");
            (1, string_of(&m))
        },
        CluePlan::ByChapter { chapters } => {
            let ghost ps = packs_view(chapters@);
            let mut n: usize = 0;
            let mut i: usize = 0;
            while i < chapters.len()
                invariant
                    i <= chapters@.len(),
                    chapters@.len() < 0x7fff_ffff_ffff_ffff,
                    ps == packs_view(chapters@),
                    n == eligible_count(ps.take(i as int)),
                    n <= i,
                decreases chapters@.len() - i,
            {
                proof {
                    assert(ps.take(i + 1).drop_last() =~= ps.take(i as int));
                }
                if has_two_cards(&chapters[i]) {
                    n = n + 1;
                }
                i = i + 1;
            }
            assert(ps.take(chapters@.len() as int) =~= ps);
            let steps: i64 = if n > 1 {
                n as i64 + 1
            } else {
                n as i64
            };
            let mut m: Vec<char> = Vec::new();
            push_dec_usize(&mut m, card_n);
            push_str(&mut m, " 张卡片，按 ");
            push_dec_usize(&mut m, n);
            push_str(&mut m, " 章归纳");
            (steps, string_of(&m))
        },
    }
}

// ---------- trees built around the model ----------

/// The root of a book's tree with the given themes.
pub open spec fn book_root(children: Seq<NodeView>) -> NodeView {
    NodeView {
        id: "root"@,
        label: Seq::empty(),
        kind: "book"@,
        summary: None,
        ids: Seq::empty(),
        children,
    }
}

/// A tree that only carries warnings (and, once filled in, themes).
pub open spec fn is_bare_tree(m: Mindmap, warnings: Seq<String>) -> bool {
    &&& m.book_id == 0
    &&& m.title@ == Seq::<char>::empty()
    &&& m.mode@ == "theme"@
    &&& m.input_hash@ == Seq::<char>::empty()
    &&& m.prompt_version@ == PROMPT_VERSION@
    &&& m.stats == MindmapStats { cards: 0, chapters: 0, themes: 0, unplaced: 0 }
    &&& m.warnings@ == warnings
}

pub fn empty_tree(warnings: Vec<String>) -> (r: Mindmap)
    ensures
        is_bare_tree(r, warnings@),
        node_view(r.root) == book_root(Seq::empty()),
{
    let r = Mindmap {
        book_id: 0,
        title: String::new(),
        mode: owned("theme"),
        input_hash: String::new(),
        prompt_version: owned(PROMPT_VERSION),
        stats: MindmapStats { cards: 0, chapters: 0, themes: 0, unplaced: 0 },
        root: MindmapNode {
            id: owned("root"),
            label: String::new(),
            kind: owned("book"),
            summary: None,
            source_card_ids: Vec::new(),
            children: Vec::new(),
        },
        warnings,
    };
    proof {
        lemma_children_view(r.root);
        assert(node_view(r.root).children =~= Seq::<NodeView>::empty());
        assert(node_view(r.root).ids =~= Seq::<i64>::empty());
        assert(node_view(r.root).label =~= Seq::<char>::empty());
        assert(node_view(r.root) == book_root(Seq::empty()));
    }
    r
}

/// The chapters' themes one after another.
pub open spec fn outline_themes(outs: Seq<(String, Vec<MindmapNode>)>) -> Seq<NodeView>
    decreases outs.len(),
{
    if outs.len() == 0 {
        Seq::empty()
    } else {
        outline_themes(outs.drop_last()) + nodes_view(outs.last().1@)
    }
}

pub open spec fn first_twelve(s: Seq<NodeView>) -> Seq<NodeView> {
    if s.len() > 12 {
        s.take(12)
    } else {
        s
    }
}

proof fn lemma_outline_prefix(outs: Seq<(String, Vec<MindmapNode>)>, k: int)
    requires
        0 <= k <= outs.len(),
    ensures
        outline_themes(outs.take(k)).len() <= outline_themes(outs).len(),
        forall|t: int|
            0 <= t < outline_themes(outs.take(k)).len() ==> #[trigger] outline_themes(outs.take(k))[t]
                == outline_themes(outs)[t],
    decreases outs.len() - k,
{
    if k < outs.len() {
        lemma_outline_prefix(outs, k + 1);
        assert(outs.take(k + 1).drop_last() =~= outs.take(k));
        let a = outline_themes(outs.take(k));
        let b = outline_themes(outs.take(k + 1));
        assert forall|t: int| 0 <= t < a.len() implies #[trigger] a[t] == outline_themes(outs)[t] by {
            assert(a[t] == b[t]);
        }
    } else {
        assert(outs.take(k) =~= outs);
    }
}

/// The book's tree when merging failed: the chapters' themes side by side,
/// at most 12.
pub fn flatten_chapters(outlines: Vec<(String, Vec<MindmapNode>)>, warnings: Vec<String>) -> (r: Mindmap)
    ensures
        is_bare_tree(r, warnings@),
        node_view(r.root) == book_root(first_twelve(outline_themes(outlines@))),
{
    let ghost orig = outlines@;
    let len = outlines.len();
    let mut rest = outlines;
    let mut kids: Vec<MindmapNode> = Vec::new();
    let mut k: usize = 0;
    assert(rest@ =~= orig.skip(0));
    assert(orig.take(0) =~= Seq::<(String, Vec<MindmapNode>)>::empty());
    while rest.len() > 0 && kids.len() < 12
        invariant
            orig.len() == len,
            k + rest@.len() == orig.len(),
            rest@ == orig.skip(k as int),
            nodes_view(kids@) == outline_themes(orig.take(k as int)),
        decreases rest@.len(),
    {
        let (_, mut themes) = rest.remove(0);
        proof {
            assert(orig.take(k + 1).drop_last() =~= orig.take(k as int));
            assert(orig.take(k + 1).last() == orig[k as int]);
        }
        let ghost before = nodes_view(kids@);
        let ghost tv = nodes_view(themes@);
        kids.append(&mut themes);
        k = k + 1;
        assert(nodes_view(kids@) =~= before + tv);
        assert(rest@ =~= orig.skip(k as int));
    }
    proof {
        lemma_outline_prefix(orig, k as int);
        if rest@.len() == 0 {
            assert(orig.take(k as int) =~= orig);
        }
    }
    let ghost whole = nodes_view(kids@);
    let ghost before = kids@;
    kids.truncate(12);
    proof {
        let full = outline_themes(orig);
        if whole.len() >= 12 {
            assert forall|t: int| 0 <= t < 12 implies #[trigger] nodes_view(kids@)[t] == first_twelve(full)[t] by {
                assert(kids@[t] == before[t]);
                assert(whole[t] == node_view(before[t]));
                assert(whole[t] == full[t]);
            }
        }
        assert(nodes_view(kids@) =~= first_twelve(full));
    }
    let mut tree = empty_tree(warnings);
    tree.root.children = kids;
    proof {
        lemma_children_view(tree.root);
        assert(node_view(tree.root).ids =~= Seq::<i64>::empty());
        assert(node_view(tree.root).label =~= Seq::<char>::empty());
        assert(node_view(tree.root) == book_root(first_twelve(outline_themes(orig))));
    }
    tree
}

// ---------- a chapter-by-chapter run ----------

/// What a chapter-by-chapter run has gathered so far.
pub struct ChapterRun {
    /// Each answered chapter's name and themes.
    pub outlines: Vec<(String, Vec<MindmapNode>)>,
    pub warnings: Vec<String>,
    /// The clusters of every chapter seen.
    pub all_clusters: Vec<Vec<i64>>,
    /// The progress step reached.
    pub current: i64,
}

/// How a chapter's request ended: the call failed, its reply was not a
/// tree, or it was parsed.
pub enum ChapterReply {
    Failed(String),
    Unreadable(String),
    Parsed(Mindmap),
}

/// What follows the chapters: nothing usable, a single chapter's tree, or
/// a merge request.
pub enum AfterChapters {
    Failed(MindmapError),
    Single(Mindmap),
    Merge(ChapterRun),
}

pub fn start_run() -> (r: ChapterRun)
    ensures
        r.outlines@.len() == 0,
        r.warnings@.len() == 0,
        r.all_clusters@.len() == 0,
        r.current == 0,
{
    ChapterRun { outlines: Vec::new(), warnings: Vec::new(), all_clusters: Vec::new(), current: 0 }
}

fn copy_ids(v: &Vec<i64>) -> (r: Vec<i64>)
    ensures
        r@ == v@,
{
    let mut out: Vec<i64> = Vec::new();
    let mut i: usize = 0;
    while i < v.len()
        invariant
            i <= v@.len(),
            out@ == v@.take(i as int),
        decreases v@.len() - i,
    {
        out.push(v[i]);
        i = i + 1;
        assert(out@ =~= v@.take(i as int));
    }
    assert(v@.take(v@.len() as int) =~= v@);
    out
}

/// Enters a chapter: its clusters are recorded; it is asked about (and
/// counted as a step) when it stands for at least two cards, else skipped
/// with a warning.
pub fn begin_chapter(run: &mut ChapterRun, ch: &ChapterPack) -> (ask: bool)
    requires
        old(run).current < 0x7fff_ffff_ffff_ffff,
    ensures
        ask == eligible(pack_view(*ch)),
        id_lists(final(run).all_clusters@) == id_lists(old(run).all_clusters@) + id_lists(ch.clusters@),
        final(run).outlines == old(run).outlines,
        ask ==> final(run).current == old(run).current + 1 && final(run).warnings == old(run).warnings,
        !ask ==> final(run).current == old(run).current && strings_view(final(run).warnings@) == strings_view(
            old(run).warnings@,
        ).push("「"@ + ch.title@ + "」卡片不足，跳过"@),
{
    let ghost start = id_lists(run.all_clusters@);
    let mut i: usize = 0;
    while i < ch.clusters.len()
        invariant
            i <= ch.clusters@.len(),
            id_lists(run.all_clusters@) == start + id_lists(ch.clusters@).take(i as int),
            run.outlines == old(run).outlines,
            run.warnings == old(run).warnings,
            run.current == old(run).current,
        decreases ch.clusters@.len() - i,
    {
        let ghost before = id_lists(run.all_clusters@);
        let c = copy_ids(&ch.clusters[i]);
        let ghost cv = c@;
        run.all_clusters.push(c);
        proof {
            assert(id_lists(run.all_clusters@) =~= before.push(cv));
            assert(id_lists(ch.clusters@).take(i + 1) =~= id_lists(ch.clusters@).take(i as int).push(cv));
        }
        i = i + 1;
    }
    assert(id_lists(ch.clusters@).take(ch.clusters@.len() as int) =~= id_lists(ch.clusters@));
    if !has_two_cards(ch) {
        let mut m = chars_of("「");
        push_str(&mut m, ch.title.as_str());
        push_str(&mut m, "」卡片不足，跳过");
        let ghost before = strings_view(run.warnings@);
        let w = string_of(&m);
        let ghost wv = w@;
        run.warnings.push(w);
        assert(strings_view(run.warnings@) =~= before.push(wv));
        return false;
    }
    run.current = run.current + 1;
    true
}

fn chapter_warning(title: &String, middle: &str, tail: &str) -> (r: String)
    ensures
        r@ == "「"@ + title@ + middle@ + tail@,
{
    let mut m = chars_of("「");
    push_str(&mut m, title.as_str());
    push_str(&mut m, middle);
    push_str(&mut m, tail);
    string_of(&m)
}

/// Takes a chapter's reply: a usable tree (its themes, with cluster mates
/// added) is kept; anything else becomes a warning. Returns the progress
/// stage and message to report.
pub fn finish_chapter(run: &mut ChapterRun, ch: &ChapterPack, reply: ChapterReply) -> (r: (String, String))
    ensures
        final(run).all_clusters == old(run).all_clusters,
        final(run).current == old(run).current,
        match reply {
            ChapterReply::Failed(msg) => {
                &&& final(run).outlines == old(run).outlines
                &&& strings_view(final(run).warnings@) == strings_view(old(run).warnings@).push(
                    "「"@ + ch.title@ + "」归纳失败："@ + msg@,
                )
                &&& r.0@ == "chapter_failed"@
                &&& r.1@ == msg@
            },
            ChapterReply::Unreadable(e) => {
                &&& final(run).outlines == old(run).outlines
                &&& strings_view(final(run).warnings@) == strings_view(old(run).warnings@).push(
                    "「"@ + ch.title@ + "」归纳结果无法解析："@ + e@,
                )
                &&& r.0@ == "chapter_failed"@
                &&& r.1@ == "结果无法解析："@ + e@
            },
            ChapterReply::Parsed(tree) => {
                let x = expand_view(node_view(tree.root), id_lists(ch.clusters@));
                if x.children.len() == 0 {
                    &&& final(run).outlines == old(run).outlines
                    &&& strings_view(final(run).warnings@) == strings_view(old(run).warnings@).push(
                        "「"@ + ch.title@ + "」没有可用概要"@,
                    )
                    &&& r.0@ == "chapter_failed"@
                    &&& r.1@ == "没有可用概要"@
                } else {
                    &&& outlines_view(final(run).outlines@) == outlines_view(old(run).outlines@).push(
                        (ch.title@, x.children),
                    )
                    &&& final(run).warnings == old(run).warnings
                    &&& r.0@ == "chapter_ok"@
                    &&& r.1@ == Seq::<char>::empty()
                }
            },
        },
{
    let ghost w0 = strings_view(run.warnings@);
    match reply {
        ChapterReply::Failed(msg) => {
            let w = chapter_warning(&ch.title, "」归纳失败：", msg.as_str());
            let ghost wv = w@;
            run.warnings.push(w);
            assert(strings_view(run.warnings@) =~= w0.push(wv));
            (owned("chapter_failed"), msg)
        },
        ChapterReply::Unreadable(e) => {
            let w = chapter_warning(&ch.title, "」归纳结果无法解析：", e.as_str());
            let ghost wv = w@;
            run.warnings.push(w);
            assert(strings_view(run.warnings@) =~= w0.push(wv));
            let mut m = chars_of("结果无法解析：");
            push_str(&mut m, e.as_str());
            (owned("chapter_failed"), string_of(&m))
        },
        ChapterReply::Parsed(tree) => {
            let mut tree = tree;
            expand_clusters(&mut tree, ch.clusters.as_slice());
            proof {
                lemma_children_view(tree.root);
            }
            if tree.root.children.len() == 0 {
                let mut m = chars_of("「");
                push_str(&mut m, ch.title.as_str());
                push_str(&mut m, "」没有可用概要");
                let w = string_of(&m);
                let ghost wv = w@;
                run.warnings.push(w);
                assert(strings_view(run.warnings@) =~= w0.push(wv));
                (owned("chapter_failed"), owned("没有可用概要"))
            } else {
                let ghost before = outlines_view(run.outlines@);
                let Mindmap { book_id: _, title: _, mode: _, input_hash: _, prompt_version: _, stats: _, root, warnings: _ } =
                    tree;
                let entry = (ch.title.clone(), root.children);
                let ghost ev = (entry.0@, nodes_view(entry.1@));
                run.outlines.push(entry);
                assert(outlines_view(run.outlines@) =~= before.push(ev));
                (owned("chapter_ok"), String::new())
            }
        },
    }
}

/// After the last chapter: fails when no chapter gave themes; a single
/// chapter's themes become the book's tree; several call for a merge,
/// which is one more step.
pub fn chapters_done(run: ChapterRun) -> (r: AfterChapters)
    requires
        run.current < 0x7fff_ffff_ffff_ffff,
    ensures
        run.outlines@.len() == 0 ==> (r matches AfterChapters::Failed(MindmapError::Msg(m)) && m@
            == empty_clue_text(strings_view(run.warnings@))),
        run.outlines@.len() == 1 ==> (r matches AfterChapters::Single(t) && is_bare_tree(t, run.warnings@)
            && node_view(t.root) == expand_view(
            book_root(nodes_view(run.outlines@[0].1@)),
            id_lists(run.all_clusters@),
        )),
        run.outlines@.len() > 1 ==> (r matches AfterChapters::Merge(next) && next.outlines == run.outlines
            && next.warnings == run.warnings && next.all_clusters == run.all_clusters && next.current
            == run.current + 1),
{
    if run.outlines.len() == 0 {
        return AfterChapters::Failed(empty_clue_error(&run.warnings));
    }
    if run.outlines.len() == 1 {
        let ChapterRun { outlines, warnings, all_clusters, current: _ } = run;
        let mut outlines = outlines;
        let ghost o0 = outlines@[0];
        let (_, themes) = outlines.pop().unwrap();
        let mut tree = empty_tree(warnings);
        tree.root.children = themes;
        proof {
            lemma_children_view(tree.root);
            assert(node_view(tree.root) =~~= book_root(nodes_view(o0.1@)));
        }
        expand_clusters(&mut tree, all_clusters.as_slice());
        return AfterChapters::Single(tree);
    }
    let mut run = run;
    run.current = run.current + 1;
    AfterChapters::Merge(run)
}

/// The book's tree after the merge request: the merged tree with the
/// chapters' warnings added, or, when merging failed, the chapters' themes
/// side by side; cluster mates are added either way.
pub fn finish_merge(run: ChapterRun, merged: Option<Mindmap>) -> (r: Mindmap)
    ensures
        ({
            let cls = id_lists(run.all_clusters@);
            match merged {
                Some(m) => {
                    &&& node_view(r.root) == expand_view(expand_view(node_view(m.root), cls), cls)
                    &&& r.warnings@ == m.warnings@ + run.warnings@
                    &&& r.book_id == m.book_id
                    &&& r.title == m.title
                    &&& r.mode == m.mode
                    &&& r.input_hash == m.input_hash
                    &&& r.prompt_version == m.prompt_version
                    &&& r.stats == m.stats
                },
                None => {
                    &&& strings_view(r.warnings@) == strings_view(run.warnings@).push("全书合并失败，暂按各章概要并列。"@)
                    &&& node_view(r.root) == expand_view(book_root(first_twelve(outline_themes(run.outlines@))), cls)
                    &&& r.book_id == 0
                    &&& r.title@ == Seq::<char>::empty()
                    &&& r.mode@ == "theme"@
                    &&& r.input_hash@ == Seq::<char>::empty()
                    &&& r.prompt_version@ == PROMPT_VERSION@
                    &&& r.stats == (MindmapStats { cards: 0, chapters: 0, themes: 0, unplaced: 0 })
                },
            }
        }),
{
    let ChapterRun { outlines, warnings, all_clusters, current: _ } = run;
    match merged {
        Some(m) => {
            let mut m = m;
            expand_clusters(&mut m, all_clusters.as_slice());
            let mut w = warnings;
            m.warnings.append(&mut w);
            expand_clusters(&mut m, all_clusters.as_slice());
            m
        },
        None => {
            let mut w = warnings;
            let ghost before = strings_view(w@);
            w.push(owned("全书合并失败，暂按各章概要并列。"));
            assert(strings_view(w@) =~= before.push("全书合并失败，暂按各章概要并列。"@));
            let mut t = flatten_chapters(outlines, w);
            expand_clusters(&mut t, all_clusters.as_slice());
            t
        },
    }
}

// ---------- status and failures ----------

/// What the clue panel shows for a book: whether generation is possible
/// (a model is on and there are two cards), the cached map and whether it
/// is out of date, and where and with which model a generation would go.
/// `runtime` is the checked chat settings, when they passed.
pub fn status_for(
    cards: &[CardRow],
    cached: Option<Mindmap>,
    provider_off: bool,
    runtime: Option<(crate::llm::LlmConfig, String)>,
) -> (r: MindmapStatus)
    ensures
        r.available == (!provider_off && cards@.len() >= 2),
        r.provider_off == provider_off,
        r.card_count == cards@.len() as i64,
        r.stale == (match cached {
            Some(c) => c.input_hash@ != input_hash_spec(cards@),
            None => false,
        }),
        r.cached == cached,
        opt_text(r.chat_endpoint) == (match runtime {
            Some(rt) => Some(crate::text::trim_end_char(rt.0.base_url@, '/') + "/chat/completions"@),
            None => None,
        }),
        opt_text(r.model) == (match runtime {
            Some(rt) => Some(rt.0.model@),
            None => None,
        }),
{
    let hash = input_hash(cards);
    let stale = match &cached {
        Some(c) => c.input_hash != hash,
        None => false,
    };
    let (chat_endpoint, model) = match &runtime {
        Some(rt) => (Some(crate::llm::chat_url(rt.0.base_url.as_str())), Some(rt.0.model.clone())),
        None => (None, None),
    };
    MindmapStatus {
        available: !provider_off && cards.len() >= 2,
        provider_off,
        card_count: cards.len() as i64,
        cached,
        stale,
        chat_endpoint,
        model,
    }
}

/// The refusal before a generation with fewer than two cards.
pub fn check_enough_cards(cards: &[CardRow]) -> (r: MindmapResult<()>)
    ensures
        cards@.len() >= 2 <==> r is Ok,
        r matches Err(MindmapError::Msg(m)) ==> m@ == "至少两张卡片才能归纳线索。"@,
{
    if cards.len() < 2 {
        return Err(MindmapError::Msg(owned("至少两张卡片才能归纳线索。")));
    }
    Ok(())
}

/// The message when a generation request never got an answer, by what
/// went wrong: the connection was reset, it timed out, or something else.
pub open spec fn clue_network_text(detail: Seq<char>) -> Seq<char> {
    if crate::text::contains(detail, "reset by peer"@) || crate::text::contains(detail, "os error 54"@) {
        "生成线索时连接被对端断开。请再试一次；若反复出现，换直连供应商。("@ + detail + ")"@
    } else if crate::text::contains(detail, "timed out"@) {
        "生成线索超时。请再试一次；若反复超时，换更快的模型。"@
    } else {
        "生成线索失败。"@ + detail
    }
}

pub fn clue_network_error(detail: &str) -> (r: MindmapError)
    ensures
        r matches MindmapError::Msg(m) && m@ == clue_network_text(detail@),
{
    let d = chars_of(detail);
    let mut m: Vec<char>;
    if crate::text::contains_str(&d, "reset by peer") || crate::text::contains_str(&d, "os error 54") {
        m = chars_of("生成线索时连接被对端断开。请再试一次；若反复出现，换直连供应商。(");
        push_chars(&mut m, &d);
        push_str(&mut m, ")");
    } else if crate::text::contains_str(&d, "timed out") {
        m = chars_of("生成线索超时。请再试一次；若反复超时，换更快的模型。");
    } else {
        m = chars_of("生成线索失败。");
        push_chars(&mut m, &d);
    }
    MindmapError::Msg(string_of(&m))
}

/// The progress message before another attempt (`attempt` counts from 0).
pub fn retry_message(attempt: u32) -> (r: String)
    requires
        attempt < 3,
    ensures
        r@ == "连接不稳，第 "@ + dec(attempt as nat + 2) + " 次尝试…"@,
{
    let mut m = chars_of("连接不稳，第 ");
    push_dec_usize(&mut m, (attempt + 2) as usize);
    push_str(&mut m, " 次尝试…");
    string_of(&m)
}

// ---------- a plan keeps every card ----------

pub open spec fn flat_ids(s: Seq<Seq<i64>>) -> Seq<i64>
    decreases s.len(),
{
    if s.len() == 0 {
        Seq::empty()
    } else {
        flat_ids(s.drop_last()) + s.last()
    }
}

pub open spec fn flat_cards(s: Seq<Seq<CardRow>>) -> Seq<CardRow>
    decreases s.len(),
{
    if s.len() == 0 {
        Seq::empty()
    } else {
        flat_cards(s.drop_last()) + s.last()
    }
}

pub open spec fn group_cards(gs: Seq<(Seq<char>, Seq<CardRow>)>) -> Seq<CardRow>
    decreases gs.len(),
{
    if gs.len() == 0 {
        Seq::empty()
    } else {
        group_cards(gs.drop_last()) + gs.last().1
    }
}

/// The card ids of every cluster a plan sends, one after another.
pub open spec fn plan_ids(plan: CluePlan) -> Seq<i64> {
    match plan {
        CluePlan::OneShot { clusters, .. } => flat_ids(id_lists(clusters@)),
        CluePlan::ByChapter { chapters } => flat_ids(all_clusters(packs_view(chapters@))),
    }
}

proof fn lemma_flat_ids_add(a: Seq<Seq<i64>>, b: Seq<Seq<i64>>)
    ensures
        flat_ids(a + b) == flat_ids(a) + flat_ids(b),
    decreases b.len(),
{
    if b.len() == 0 {
        assert(a + b =~= a);
        assert(flat_ids(a) + flat_ids(b) =~= flat_ids(a));
    } else {
        lemma_flat_ids_add(a, b.drop_last());
        assert((a + b).drop_last() =~= a + b.drop_last());
        assert(flat_ids(a + b) =~= flat_ids(a) + flat_ids(b));
    }
}

proof fn lemma_groups_partition(cs: Seq<CardRow>)
    ensures
        group_cards(groups(cs)) == cs,
    decreases cs.len(),
{
    if cs.len() > 0 {
        lemma_groups_partition(cs.drop_last());
        let g = groups(cs.drop_last());
        let c = cs.last();
        if g.len() > 0 && g.last().0 == chapter_name(c.chapter_title) {
            let u = g.update(g.len() - 1, (g.last().0, g.last().1.push(c)));
            assert(u.drop_last() =~= g.drop_last());
            assert(group_cards(u) =~= group_cards(g).push(c));
        } else {
            assert(g.push((chapter_name(c.chapter_title), seq![c])).drop_last() =~= g);
        }
        assert(cs =~= cs.drop_last().push(c));
    }
}

proof fn lemma_clusters_partition(cs: Seq<CardRow>)
    ensures
        flat_cards(clusters(cs)) == cs,
    decreases cs.len(),
{
    if cs.len() > 0 {
        lemma_clusters_partition(cs.drop_last());
        let g = clusters(cs.drop_last());
        let c = cs.last();
        if clusters(cs) == g.update(g.len() - 1, g.last().push(c)) && g.len() > 0 {
            let u = g.update(g.len() - 1, g.last().push(c));
            assert(u.drop_last() =~= g.drop_last());
            assert(flat_cards(u) =~= flat_cards(g).push(c));
        } else {
            assert(g.push(seq![c]).drop_last() =~= g);
        }
        assert(cs =~= cs.drop_last().push(c));
    }
}

proof fn lemma_singles_partition(cs: Seq<CardRow>)
    ensures
        flat_cards(singles(cs)) == cs,
    decreases cs.len(),
{
    if cs.len() > 0 {
        lemma_singles_partition(cs.drop_last());
        assert(singles(cs).drop_last() =~= singles(cs.drop_last()));
        assert(cs =~= cs.drop_last().push(cs.last()));
    }
}

proof fn lemma_ids_of_flat(cls: Seq<Seq<CardRow>>)
    ensures
        flat_ids(cls.map_values(|cl: Seq<CardRow>| ids_of_cluster(cl))) == ids_of_cluster(flat_cards(cls)),
    decreases cls.len(),
{
    if cls.len() > 0 {
        lemma_ids_of_flat(cls.drop_last());
        assert(cls.map_values(|cl: Seq<CardRow>| ids_of_cluster(cl)).drop_last() =~= cls.drop_last().map_values(
            |cl: Seq<CardRow>| ids_of_cluster(cl),
        ));
        assert(ids_of_cluster(flat_cards(cls)) =~= ids_of_cluster(flat_cards(cls.drop_last())) + ids_of_cluster(
            cls.last(),
        ));
    }
}

proof fn lemma_packs_ids(gs: Seq<(Seq<char>, Seq<CardRow>)>, cluster: bool)
    ensures
        flat_ids(all_clusters(gs.map_values(|g: (Seq<char>, Seq<CardRow>)| pack_spec(g, cluster))))
            == ids_of_cluster(group_cards(gs)),
    decreases gs.len(),
{
    if gs.len() > 0 {
        let ps = gs.map_values(|g: (Seq<char>, Seq<CardRow>)| pack_spec(g, cluster));
        lemma_packs_ids(gs.drop_last(), cluster);
        assert(ps.drop_last() =~= gs.drop_last().map_values(|g: (Seq<char>, Seq<CardRow>)| pack_spec(g, cluster)));
        let last = gs.last();
        let cls = clusters_for(last.1, cluster);
        lemma_flat_ids_add(all_clusters(ps.drop_last()), ps.last().2);
        lemma_ids_of_flat(cls);
        if cluster {
            lemma_clusters_partition(last.1);
        } else {
            lemma_singles_partition(last.1);
        }
        assert(ids_of_cluster(group_cards(gs)) =~= ids_of_cluster(group_cards(gs.drop_last())) + ids_of_cluster(
            last.1,
        ));
    }
}

proof fn lemma_one_id_each(cards: Seq<CardRow>)
    ensures
        flat_ids(one_id_each(cards)) == ids_of_cluster(cards),
    decreases cards.len(),
{
    if cards.len() > 0 {
        lemma_one_id_each(cards.drop_last());
        assert(one_id_each(cards).drop_last() =~= one_id_each(cards.drop_last()));
        assert(ids_of_cluster(cards) =~= ids_of_cluster(cards.drop_last()).push(cards.last().id));
    }
}

proof fn lemma_map_multiset(a: Seq<CardRow>, b: Seq<CardRow>)
    requires
        a.to_multiset() == b.to_multiset(),
    ensures
        ids_of_cluster(a).to_multiset() == ids_of_cluster(b).to_multiset(),
    decreases a.len(),
{
    broadcast use vstd::seq_lib::group_to_multiset_ensures;
    broadcast use vstd::multiset::group_multiset_axioms;
    if a.len() == 0 {
        vstd::seq_lib::to_multiset_len(a);
        vstd::seq_lib::to_multiset_len(b);
        assert(b.len() == 0);
        assert(ids_of_cluster(a) =~= ids_of_cluster(b));
    } else {
        let x = a.last();
        assert(a.to_multiset().count(x) > 0) by {
            assert(a =~= a.drop_last().push(x));
        }
        assert(b.contains(x));
        let i = choose|i: int| 0 <= i < b.len() && b[i] == x;
        vstd::seq_lib::to_multiset_remove(b, i);
        assert(a =~= a.drop_last().push(x));
        vstd::seq_lib::to_multiset_build(a.drop_last(), x);
        assert(a.drop_last().to_multiset() =~= b.remove(i).to_multiset());
        lemma_map_multiset(a.drop_last(), b.remove(i));
        assert(ids_of_cluster(a) =~= ids_of_cluster(a.drop_last()).push(x.id));
        assert(ids_of_cluster(b.remove(i)) =~= ids_of_cluster(b).remove(i));
        vstd::seq_lib::to_multiset_build(ids_of_cluster(a.drop_last()), x.id);
        vstd::seq_lib::to_multiset_remove(ids_of_cluster(b), i);
    }
}

/// A plan loses no card and adds none: over all its clusters, every card
/// id occurs exactly as often as among the cards.
pub proof fn lemma_plan_keeps_every_card(cards: Seq<CardRow>, s: Seq<CardRow>, plan: CluePlan)
    requires
        crate::ai::sorted_copy_of(cards, s, chapter_order()),
        plan_ok(cards, s, plan),
    ensures
        plan_ids(plan).to_multiset() == ids_of_cluster(cards).to_multiset(),
{
    if cards.len() <= 80 {
        lemma_one_id_each(cards);
    } else {
        let cluster = cards.len() > 400;
        let ps = packs_spec(s, cluster);
        lemma_packs_ids(groups(s), cluster);
        lemma_groups_partition(s);
        assert(flat_ids(all_clusters(ps)) == ids_of_cluster(s));
        let (cl, p) = choose|cl: Seq<CardRow>, p: Seq<int>|
            crate::ai::cards_match(cl, cards) && is_stable_sort(cl, s, chapter_order(), p);
        lemma_map_multiset(s, cl);
        assert(ids_of_cluster(cl) =~= ids_of_cluster(cards));
    }
}

// ---------- defaults for a model's nodes ----------

pub open spec fn opt_str(o: Option<&str>) -> Option<Seq<char>> {
    match o {
        Some(s) => Some(s@),
        None => None,
    }
}

/// A node's id: its own when it is a string that is not blank, else the
/// fallback.
pub fn node_id_or(id: Option<&str>, fallback: &str) -> (r: String)
    ensures
        (id matches Some(s) && trim(s@).len() > 0) ==> r@ == id->0@,
        !(id matches Some(s) && trim(s@).len() > 0) ==> r@ == fallback@,
{
    match id {
        Some(s) => {
            if trimmed(s).len() > 0 {
                owned(s)
            } else {
                owned(fallback)
            }
        },
        None => owned(fallback),
    }
}

/// A node's kind: its own when it is a non-empty string, else `book` for
/// the root and `theme` below it.
pub fn node_kind_or(kind: Option<&str>, is_root: bool) -> (r: String)
    ensures
        (kind matches Some(s) && s@.len() > 0) ==> r@ == kind->0@,
        !(kind matches Some(s) && s@.len() > 0) ==> r@ == (if is_root {
            "book"@
        } else {
            "theme"@
        }),
{
    match kind {
        Some(s) => {
            if chars_of(s).len() > 0 {
                return owned(s);
            }
        },
        None => {},
    }
    if is_root {
        owned("book")
    } else {
        owned("theme")
    }
}

/// A node's label: its own when it is a string that is not blank, else
/// its trimmed summary when that is not blank, else `未命名主题`.
pub fn node_label_or(label: Option<&str>, summary: Option<&str>) -> (r: String)
    ensures
        (label matches Some(s) && trim(s@).len() > 0) ==> r@ == label->0@,
        !(label matches Some(s) && trim(s@).len() > 0) ==> r@ == (match summary {
            Some(t) => if trim(t@).len() > 0 {
                trim(t@)
            } else {
                "未命名主题"@
            },
            None => "未命名主题"@,
        }),
{
    match label {
        Some(s) => {
            if trimmed(s).len() > 0 {
                return owned(s);
            }
        },
        None => {},
    }
    match summary {
        Some(t) => {
            let v = trimmed(t);
            if v.len() > 0 {
                string_of(&v)
            } else {
                owned("未命名主题")
            }
        },
        None => owned("未命名主题"),
    }
}

/// The fallback id of the `seq`-th child met in the tree: `t-seq`.
pub fn child_fallback_id(seq: u32) -> (r: String)
    ensures
        r@ == "t-"@ + dec(seq as nat),
{
    let mut m = chars_of("t-");
    push_dec_usize(&mut m, seq as usize);
    string_of(&m)
}

} // verus!
