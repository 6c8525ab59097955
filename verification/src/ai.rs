//! Derived card aids: content hashes that tell when a derived artifact is
//! stale, the prompts for question faces and recall scaffolds, the checks
//! applied to what a model returns, the rule-based scaffold, and the
//! classification of hybrid search hits. Model calls, vector arithmetic and
//! storage happen in the application.
use vstd::prelude::*;
use crate::db::{CardRow, same_card};
use crate::llm::Provider;
use crate::order::{sort_i64, le_i64, stable_sort_cards, is_stable_sort, Key3, key_value};
use crate::text::{
    chars_of, dec, dec_int, has_char, hex_fixed, is_ws, owned, prefix, prefix_chars, push_chars,
    push_dec_i64, push_hex_fixed, push_str, same_text, starts_with, string_of, text_is, trim,
    trimmed, has_prefix, lower, lower_chars, string_is,
};

verus! {

pub const QUESTION_PROMPT_VERSION: &'static str = "question-face-v1";

pub const SCAFFOLD_PROMPT_VERSION: &'static str = "review-scaffold-v1";

// ---------- hashes ----------

pub open spec fn fnv_offset() -> u64 {
    0xcbf29ce484222325u64
}

pub open spec fn fnv_prime() -> u64 {
    0x100000001b3u64
}

/// 64-bit FNV-1a over bytes.
pub open spec fn fnv(bytes: Seq<u8>) -> u64
    decreases bytes.len(),
{
    if bytes.len() == 0 {
        fnv_offset()
    } else {
        vstd::wrapping::u64_specs::wrapping_mul(fnv(bytes.drop_last()) ^ (bytes.last() as u64), fnv_prime())
    }
}

/// The hash as 16 lowercase hexadecimal digits.
pub open spec fn fnv_hex(s: Seq<char>) -> Seq<char> {
    hex_fixed(fnv(vstd::utf8::encode_utf8(s)) as nat, 16)
}

/// FNV-1a (64 bit) of the string's UTF-8 bytes, as 16 hexadecimal digits.
/// Stable and short; it only tells when cached work is out of date.
pub fn fnv1a64(s: &str) -> (r: String)
    ensures
        r@ == fnv_hex(s@),
{
    let bytes = s.as_bytes();
    let mut h: u64 = 0xcbf29ce484222325u64;
    let mut i: usize = 0;
    while i < bytes.len()
        invariant
            i <= bytes@.len(),
            bytes@ == vstd::utf8::encode_utf8(s@),
            h == fnv(bytes@.take(i as int)),
        decreases bytes@.len() - i,
    {
        proof {
            assert(bytes@.take(i + 1).drop_last() =~= bytes@.take(i as int));
        }
        h = h ^ (bytes[i] as u64);
        h = h.wrapping_mul(0x100000001b3u64);
        i = i + 1;
    }
    assert(bytes@.take(bytes@.len() as int) =~= bytes@);
    let mut out: Vec<char> = Vec::new();
    push_hex_fixed(&mut out, h, 16);
    string_of(&out)
}

fn hash_of(v: &Vec<char>) -> (r: String)
    ensures
        r@ == fnv_hex(v@),
{
    let s = string_of(v);
    fnv1a64(s.as_str())
}

/// What a card's vector is computed from: its id, trimmed text and
/// trimmed note. The book's title plays no part.
pub open spec fn content_key(c: CardRow) -> Seq<char> {
    "e2|"@ + dec_int(c.id as int) + "|"@ + trim(c.text@) + "|"@ + trim(c.note@)
}

pub fn card_content_hash(card: &CardRow) -> (r: String)
    ensures
        r@ == fnv_hex(content_key(*card)),
{
    let mut v = chars_of("e2|");
    push_dec_i64(&mut v, card.id);
    push_str(&mut v, "|");
    push_chars(&mut v, &trimmed(card.text.as_str()));
    push_str(&mut v, "|");
    push_chars(&mut v, &trimmed(card.note.as_str()));
    hash_of(&v)
}

/// What a question face is derived from.
pub open spec fn question_key(c: CardRow) -> Seq<char> {
    "q|question-face-v1|"@ + dec_int(c.id as int) + "|"@ + trim(c.text@) + "|"@ + trim(c.note@)
}

pub fn question_input_hash(card: &CardRow) -> (r: String)
    ensures
        r@ == fnv_hex(question_key(*card)),
{
    let mut v = chars_of("q|question-face-v1|");
    push_dec_i64(&mut v, card.id);
    push_str(&mut v, "|");
    push_chars(&mut v, &trimmed(card.text.as_str()));
    push_str(&mut v, "|");
    push_chars(&mut v, &trimmed(card.note.as_str()));
    hash_of(&v)
}

/// Decimal ids joined by commas.
pub open spec fn join_ids(ids: Seq<i64>) -> Seq<char>
    decreases ids.len(),
{
    if ids.len() == 0 {
        Seq::empty()
    } else if ids.len() == 1 {
        dec_int(ids[0] as int)
    } else {
        join_ids(ids.drop_last()) + ","@ + dec_int(ids.last() as int)
    }
}

pub fn push_joined_ids(out: &mut Vec<char>, ids: &Vec<i64>)
    ensures
        final(out)@ == old(out)@ + join_ids(ids@),
{
    let ghost start = out@;
    let mut i: usize = 0;
    while i < ids.len()
        invariant
            i <= ids@.len(),
            out@ == start + join_ids(ids@.take(i as int)),
        decreases ids@.len() - i,
    {
        proof {
            assert(ids@.take(i + 1).drop_last() =~= ids@.take(i as int));
        }
        if i > 0 {
            push_str(out, ",");
        }
        push_dec_i64(out, ids[i]);
        i = i + 1;
        proof {
            if i == 1 {
                assert(ids@.take(0) =~= Seq::<i64>::empty());
            }
            assert(out@ =~= start + join_ids(ids@.take(i as int)));
        }
    }
    assert(ids@.take(ids@.len() as int) =~= ids@);
}

/// What a recall scaffold is derived from: the card and its neighbours'
/// ids in ascending order (the order the neighbours were given in does not
/// matter).
pub open spec fn scaffold_key(c: CardRow, neighbor_ids: Seq<i64>) -> Seq<char> {
    "s|review-scaffold-v1|"@ + dec_int(c.id as int) + "|"@ + trim(c.text@) + "|"@ + trim(c.note@)
        + "|"@ + join_ids(neighbor_ids.sort_by(|a: i64, b: i64| le_i64(a, b)))
}

pub fn scaffold_input_hash(card: &CardRow, neighbor_ids: &[i64]) -> (r: String)
    ensures
        r@ == fnv_hex(scaffold_key(*card, neighbor_ids@)),
{
    let mut ids: Vec<i64> = Vec::new();
    let mut i: usize = 0;
    while i < neighbor_ids.len()
        invariant
            i <= neighbor_ids@.len(),
            ids@ == neighbor_ids@.take(i as int),
        decreases neighbor_ids@.len() - i,
    {
        ids.push(neighbor_ids[i]);
        i = i + 1;
        assert(ids@ =~= neighbor_ids@.take(i as int));
    }
    assert(neighbor_ids@.take(neighbor_ids@.len() as int) =~= neighbor_ids@);
    let sorted = sort_i64(&ids);
    let mut v = chars_of("s|review-scaffold-v1|");
    push_dec_i64(&mut v, card.id);
    push_str(&mut v, "|");
    push_chars(&mut v, &trimmed(card.text.as_str()));
    push_str(&mut v, "|");
    push_chars(&mut v, &trimmed(card.note.as_str()));
    push_str(&mut v, "|");
    push_joined_ids(&mut v, &sorted);
    hash_of(&v)
}

/// Changing the book's title, the tags or anything else outside the id,
/// text and note keeps a card's vector hash.
pub proof fn lemma_content_hash_ignores_other_fields(a: CardRow, b: CardRow)
    requires
        a.id == b.id,
        a.text@ == b.text@,
        a.note@ == b.note@,
    ensures
        fnv_hex(content_key(a)) == fnv_hex(content_key(b)),
{
}

/// The order in which neighbours are given does not change the scaffold
/// hash.
pub proof fn lemma_scaffold_hash_order_free(c: CardRow, x: Seq<i64>, y: Seq<i64>)
    requires
        x.to_multiset() == y.to_multiset(),
    ensures
        scaffold_key(c, x) == scaffold_key(c, y),
{
    let leq = |a: i64, b: i64| le_i64(a, b);
    crate::order::lemma_le_i64_total();
    x.lemma_sort_by_ensures(leq);
    y.lemma_sort_by_ensures(leq);
    vstd::seq_lib::lemma_sorted_unique(x.sort_by(leq), y.sort_by(leq), leq);
}

// ---------- question faces ----------

#[derive(Debug, Clone, PartialEq)]
pub struct QuestionCandidate {
    pub kind: String,
    pub question: String,
}

#[derive(Debug, Clone, PartialEq)]
pub struct QuestionContent {
    pub unsuitable: bool,
    pub reason: Option<String>,
    pub candidates: Vec<QuestionCandidate>,
    pub accepted_question: Option<String>,
}

#[derive(Debug, Clone, PartialEq)]
pub struct QuestionFace {
    pub artifact_id: i64,
    pub card_id: i64,
    pub status: String,
    pub content: QuestionContent,
    pub user_edited: bool,
    pub stale: bool,
    pub provider: String,
    pub model: String,
    pub prompt_version: String,
}

pub const QUESTION_SYSTEM_PROMPT: &'static str = "你是编者，不是作者。只根据用户提供的这一张划线或想法，写出帮助主动回忆的问题。\
不要补充库外知识，不要改写原文当问题。\
只输出一个 JSON 对象，不要 Markdown。形状：\
{\"unsuitable\":false,\"reason\":null,\"candidates\":[{\"kind\":\"concept\",\"question\":\"……\"}]}\n\
规则：\n\
1. candidates 1 到 3 条。kind 只能是 concept（概念问答）、cloze（填空）、why（为什么/如何）、contrast（反例或辨析）。\n\
2. question 必须是完整、可答、忠于原文的中文问句，8 到 72 个字。不要把原文整句复制成问题。\n\
3. 原文只是抒情、过短、没有可问概念时，输出 {\"unsuitable\":true,\"reason\":\"……\",\"candidates\":[]}。\n\
4. 不要发明原文没有的术语。资料不够就说不适合。";

/// The instructions sent with every question-face request.
pub fn question_system_prompt() -> (r: &'static str)
    ensures
        r@ == QUESTION_SYSTEM_PROMPT@,
{
    QUESTION_SYSTEM_PROMPT
}

/// How a card's kind is named in prompts.
pub open spec fn kind_label(kind: Seq<char>) -> Seq<char> {
    if kind == "thought"@ {
        "想法"@
    } else if kind == "self"@ {
        "自建"@
    } else {
        "划线"@
    }
}

pub fn kind_label_of(kind: &String) -> (r: &'static str)
    ensures
        r@ == kind_label(kind@),
{
    let k = chars_of(kind.as_str());
    if text_is(&k, "thought") {
        "想法"
    } else if text_is(&k, "self") {
        "自建"
    } else {
        "划线"
    }
}

/// A chapter title that is not blank, untrimmed.
pub open spec fn shown_chapter(t: Option<String>) -> Seq<char> {
    match t {
        Some(s) => if trim(s@).len() > 0 {
            s@
        } else {
            "未分章"@
        },
        None => "未分章"@,
    }
}

fn push_shown_chapter(out: &mut Vec<char>, t: &Option<String>)
    ensures
        final(out)@ == old(out)@ + shown_chapter(*t),
{
    match t {
        Some(s) => {
            if trimmed(s.as_str()).len() > 0 {
                push_str(out, s.as_str());
            } else {
                push_str(out, "未分章");
            }
        },
        None => push_str(out, "未分章"),
    }
}

pub open spec fn question_prompt_spec(c: CardRow) -> Seq<char> {
    let head = "书名："@ + (if c.book_title@.len() == 0 {
        "（无）"@
    } else {
        c.book_title@
    }) + "\n章节："@ + shown_chapter(c.chapter_title) + "\n类型："@ + kind_label(c.kind@)
        + "\n正文："@ + trim(c.text@);
    if trim(c.note@).len() > 0 {
        head + "\n批注："@ + trim(c.note@)
    } else {
        head
    }
}

/// The request for one card: book, chapter, kind, trimmed text and, when
/// there is one, the trimmed note.
pub fn question_user_prompt(card: &CardRow) -> (r: String)
    ensures
        r@ == question_prompt_spec(*card),
{
    let mut s = chars_of("书名：");
    if chars_of(card.book_title.as_str()).len() == 0 {
        push_str(&mut s, "（无）");
    } else {
        push_str(&mut s, card.book_title.as_str());
    }
    push_str(&mut s, "\n章节：");
    push_shown_chapter(&mut s, &card.chapter_title);
    push_str(&mut s, "\n类型：");
    push_str(&mut s, kind_label_of(&card.kind));
    push_str(&mut s, "\n正文：");
    push_chars(&mut s, &trimmed(card.text.as_str()));
    let note = trimmed(card.note.as_str());
    if note.len() > 0 {
        push_str(&mut s, "\n批注：");
        push_chars(&mut s, &note);
    }
    string_of(&s)
}

/// Characters ignored when a question is compared with its source.
pub open spec fn ignored_in_match(c: char) -> bool {
    is_ws(c) || c == '…' || c == '.' || c == '。' || c == '?' || c == '？'
}

/// The text with whitespace and final punctuation removed.
pub open spec fn match_form(s: Seq<char>) -> Seq<char> {
    s.filter(|c: char| !ignored_in_match(c))
}

pub fn match_form_of(s: &Vec<char>) -> (r: Vec<char>)
    ensures
        r@ == match_form(s@),
{
    let mut out: Vec<char> = Vec::new();
    let mut i: usize = 0;
    while i < s.len()
        invariant
            i <= s@.len(),
            out@ == match_form(s@.take(i as int)),
        decreases s@.len() - i,
    {
        let c = s[i];
        proof {
            assert(s@.take(i + 1).drop_last() =~= s@.take(i as int));
            reveal_with_fuel(Seq::<char>::filter, 1);
        }
        let ign = crate::text::char_is_ws(c) || c == '…' || c == '.' || c == '。' || c == '?' || c
            == '？';
        if !ign {
            out.push(c);
        }
        i = i + 1;
        assert(out@ =~= match_form(s@.take(i as int)));
    }
    assert(s@.take(s@.len() as int) =~= s@);
    out
}

/// A question candidate as found in the model's JSON: its `kind` and
/// `question` when they were strings.
#[derive(Debug, Clone)]
pub struct RawCandidate {
    pub kind: Option<String>,
    pub question: Option<String>,
}

pub open spec fn allowed_kind(k: Seq<char>) -> bool {
    k == "concept"@ || k == "cloze"@ || k == "why"@ || k == "contrast"@
}

/// The kind of a raw candidate: its trimmed, lowercased text, `concept`
/// when missing.
pub open spec fn raw_kind(c: RawCandidate) -> Seq<char> {
    match c.kind {
        Some(k) => lower(trim(k@)),
        None => "concept"@,
    }
}

pub open spec fn raw_question(c: RawCandidate) -> Seq<char> {
    match c.question {
        Some(q) => trim(q@),
        None => Seq::empty(),
    }
}

/// Why a candidate is dropped, given the source's match form and the match
/// forms already taken: a kind outside the four, a length outside 8..=72
/// characters, a question that is empty or a prefix-echo of the source, or a
/// repeat.
pub open spec fn candidate_ok(c: RawCandidate, needle: Seq<char>, seen: Seq<Seq<char>>) -> bool {
    let q = raw_question(c);
    let m = match_form(q);
    &&& allowed_kind(raw_kind(c))
    &&& 8 <= q.len() <= 72
    &&& m.len() > 0
    &&& m != needle
    &&& !starts_with(needle, m)
    &&& !starts_with(m, needle)
    &&& !seen.contains(m)
}

/// The candidates kept, in order: at most three, each passing
/// `candidate_ok` against those kept before it. Gives `(kind, question,
/// match form)` of each.
pub open spec fn kept_candidates(cands: Seq<RawCandidate>, needle: Seq<char>) -> Seq<(Seq<char>, Seq<char>, Seq<char>)>
    decreases cands.len(),
{
    if cands.len() == 0 {
        Seq::empty()
    } else {
        let prev = kept_candidates(cands.drop_last(), needle);
        let c = cands.last();
        if prev.len() < 3 && candidate_ok(c, needle, prev.map_values(|t: (Seq<char>, Seq<char>, Seq<char>)| t.2)) {
            prev.push((raw_kind(c), raw_question(c), match_form(raw_question(c))))
        } else {
            prev
        }
    }
}

pub open spec fn reason_text(reason: Option<String>) -> Option<Seq<char>> {
    match reason {
        Some(r) => if trim(r@).len() > 0 {
            Some(prefix(trim(r@), 80))
        } else {
            None
        },
        None => None,
    }
}

/// `content` holds exactly the kept candidates, in order.
pub open spec fn holds_kept(content: QuestionContent, kept: Seq<(Seq<char>, Seq<char>, Seq<char>)>) -> bool {
    &&& content.candidates@.len() == kept.len()
    &&& forall|i: int|
        0 <= i < kept.len() ==> (#[trigger] content.candidates@[i]).kind@ == kept[i].0
            && content.candidates@[i].question@ == kept[i].1
}

fn seen_contains(seen: &Vec<Vec<char>>, m: &Vec<char>) -> (r: bool)
    ensures
        r == seen@.map_values(|v: Vec<char>| v@).contains(m@),
{
    let ghost views = seen@.map_values(|v: Vec<char>| v@);
    let mut i: usize = 0;
    while i < seen.len()
        invariant
            i <= seen@.len(),
            views == seen@.map_values(|v: Vec<char>| v@),
            forall|k: int| 0 <= k < i ==> views[k] != m@,
        decreases seen@.len() - i,
    {
        if same_text(&seen[i], m) {
            assert(views[i as int] == m@);
            return true;
        }
        i = i + 1;
    }
    false
}

/// The questions kept from a reply are sound: at most three, each of an
/// allowed kind and 8 to 72 characters long, none echoing the card, and no
/// two the same once whitespace and final punctuation are ignored.
/// Every candidate that passes the checks, each against the passing ones
/// before it, with no limit on how many.
pub open spec fn passing_candidates(cands: Seq<RawCandidate>, needle: Seq<char>) -> Seq<(Seq<char>, Seq<char>, Seq<char>)>
    decreases cands.len(),
{
    if cands.len() == 0 {
        Seq::empty()
    } else {
        let prev = passing_candidates(cands.drop_last(), needle);
        let c = cands.last();
        if candidate_ok(c, needle, prev.map_values(|t: (Seq<char>, Seq<char>, Seq<char>)| t.2)) {
            prev.push((raw_kind(c), raw_question(c), match_form(raw_question(c))))
        } else {
            prev
        }
    }
}

/// The questions kept are the first three that pass the checks (all of
/// them when fewer pass): none that passes is dropped while fewer than three
/// are kept, and three are kept whenever three or more pass.
pub proof fn lemma_first_three_passing_kept(cands: Seq<RawCandidate>, needle: Seq<char>)
    ensures
        kept_candidates(cands, needle) == passing_candidates(cands, needle).take(
            if passing_candidates(cands, needle).len() < 3 {
                passing_candidates(cands, needle).len() as int
            } else {
                3
            },
        ),
        passing_candidates(cands, needle).len() >= 3 ==> kept_candidates(cands, needle).len() == 3,
        passing_candidates(cands, needle).len() < 3 ==> kept_candidates(cands, needle) == passing_candidates(
            cands,
            needle,
        ),
    decreases cands.len(),
{
    let k = kept_candidates(cands, needle);
    let u = passing_candidates(cands, needle);
    if cands.len() == 0 {
        assert(u.take(0) =~= k);
    } else {
        let d = cands.drop_last();
        lemma_first_three_passing_kept(d, needle);
        let kd = kept_candidates(d, needle);
        let ud = passing_candidates(d, needle);
        let c = cands.last();
        let e = (raw_kind(c), raw_question(c), match_form(raw_question(c)));
        if ud.len() < 3 {
            assert(kd == ud);
            assert(kd.map_values(|t: (Seq<char>, Seq<char>, Seq<char>)| t.2) == ud.map_values(
                |t: (Seq<char>, Seq<char>, Seq<char>)| t.2,
            ));
            assert(k == u);
            assert(u.len() <= 3);
            assert(u.take(u.len() as int) =~= u);
        } else {
            assert(kd == ud.take(3));
            assert(kd.len() == 3);
            assert(k == kd);
            if candidate_ok(c, needle, ud.map_values(|t: (Seq<char>, Seq<char>, Seq<char>)| t.2)) {
                assert(u == ud.push(e));
                assert(u.take(3) =~= ud.take(3));
            } else {
                assert(u == ud);
            }
        }
    }
}

pub proof fn lemma_kept_questions_sound(cands: Seq<RawCandidate>, needle: Seq<char>)
    ensures
        kept_candidates(cands, needle).len() <= 3,
        forall|i: int|
            0 <= i < kept_candidates(cands, needle).len() ==> {
                let k = #[trigger] kept_candidates(cands, needle)[i];
                &&& allowed_kind(k.0)
                &&& 8 <= k.1.len() <= 72
                &&& k.2 == match_form(k.1)
                &&& k.2.len() > 0
                &&& k.2 != needle
                &&& !starts_with(needle, k.2)
                &&& !starts_with(k.2, needle)
            },
        forall|i: int, j: int|
            0 <= i < j < kept_candidates(cands, needle).len() ==> (#[trigger] kept_candidates(
                cands,
                needle,
            )[i]).2 != (#[trigger] kept_candidates(cands, needle)[j]).2,
    decreases cands.len(),
{
    if cands.len() > 0 {
        let d = cands.drop_last();
        lemma_kept_questions_sound(d, needle);
        let prev = kept_candidates(d, needle);
        let c = cands.last();
        let seen = prev.map_values(|t: (Seq<char>, Seq<char>, Seq<char>)| t.2);
        if prev.len() < 3 && candidate_ok(c, needle, seen) {
            let k = kept_candidates(cands, needle);
            assert(k == prev.push((raw_kind(c), raw_question(c), match_form(raw_question(c)))));
            assert forall|i: int, j: int| 0 <= i < j < k.len() implies k[i].2 != k[j].2 by {
                if j == prev.len() {
                    assert(seen[i] == prev[i].2);
                    if k[i].2 == k[j].2 {
                        assert(seen.contains(k[j].2));
                    }
                } else {
                    assert(k[i] == prev[i] && k[j] == prev[j]);
                }
            }
            assert forall|i: int| 0 <= i < k.len() implies {
                let e = #[trigger] k[i];
                &&& allowed_kind(e.0)
                &&& 8 <= e.1.len() <= 72
                &&& e.2 == match_form(e.1)
                &&& e.2.len() > 0
                &&& e.2 != needle
                &&& !starts_with(needle, e.2)
                &&& !starts_with(e.2, needle)
            } by {
                if i < prev.len() {
                    assert(k[i] == prev[i]);
                }
            }
        }
    }
}

/// What the model proposed, checked (the model's JSON is read by the
/// caller): an answer marked unsuitable is kept as such with its reason (at
/// most 80 characters, a default when blank); otherwise the candidates that
/// pass the checks are kept, and when none does the card is marked
/// unsuitable.
pub fn select_questions(
    unsuitable: bool,
    reason: Option<String>,
    candidates: &Vec<RawCandidate>,
    source: &CardRow,
) -> (r: QuestionContent)
    ensures
        r.accepted_question is None,
        unsuitable ==> {
            &&& r.unsuitable
            &&& r.candidates@.len() == 0
            &&& opt_view(r.reason) == Some(
                match reason_text(reason) {
                    Some(t) => t,
                    None => "这段不适合做成问题"@,
                },
            )
        },
        !unsuitable ==> {
            let kept = kept_candidates(candidates@, match_form(source.text@));
            if kept.len() == 0 {
                &&& r.unsuitable
                &&& r.candidates@.len() == 0
                &&& opt_view(r.reason) == Some("没有得到可用的问题"@)
            } else {
                &&& !r.unsuitable
                &&& r.reason is None
                &&& holds_kept(r, kept)
            }
        },
{
    let reason_kept: Option<String> = match &reason {
        Some(rs) => {
            let t = trimmed(rs.as_str());
            if t.len() > 0 {
                Some(string_of(&prefix_chars(&t, 80)))
            } else {
                None
            }
        },
        None => None,
    };
    if unsuitable {
        let why = match reason_kept {
            Some(t) => t,
            None => owned("这段不适合做成问题"),
        };
        return QuestionContent {
            unsuitable: true,
            reason: Some(why),
            candidates: Vec::new(),
            accepted_question: None,
        };
    }
    let src_chars = chars_of(source.text.as_str());
    let needle = match_form_of(&src_chars);
    let mut out: Vec<QuestionCandidate> = Vec::new();
    let mut seen: Vec<Vec<char>> = Vec::new();
    let mut i: usize = 0;
    while i < candidates.len()
        invariant
            i <= candidates@.len(),
            needle@ == match_form(source.text@),
            ({
                let kept = kept_candidates(candidates@.take(i as int), needle@);
                &&& out@.len() == kept.len()
                &&& seen@.map_values(|v: Vec<char>| v@) == kept.map_values(
                    |t: (Seq<char>, Seq<char>, Seq<char>)| t.2,
                )
                &&& forall|k: int|
                    0 <= k < kept.len() ==> (#[trigger] out@[k]).kind@ == kept[k].0
                        && out@[k].question@ == kept[k].1
            }),
        decreases candidates@.len() - i,
    {
        let ghost prev = kept_candidates(candidates@.take(i as int), needle@);
        proof {
            assert(candidates@.take(i + 1).drop_last() =~= candidates@.take(i as int));
        }
        let c = &candidates[i];
        let kind: Vec<char> = match &c.kind {
            Some(k) => lower_chars(&trimmed(k.as_str())),
            None => chars_of("concept"),
        };
        let q: Vec<char> = match &c.question {
            Some(x) => trimmed(x.as_str()),
            None => Vec::new(),
        };
        let m = match_form_of(&q);
        let ok_kind = text_is(&kind, "concept") || text_is(&kind, "cloze") || text_is(&kind, "why")
            || text_is(&kind, "contrast");
        let ok = out.len() < 3 && ok_kind && 8 <= q.len() && q.len() <= 72 && m.len() > 0
            && !same_text(&m, &needle) && !has_prefix(&needle, &m) && !has_prefix(&m, &needle)
            && !seen_contains(&seen, &m);
        let ghost old_seen = seen@;
        let ghost mv = m@;
        if ok {
            out.push(QuestionCandidate { kind: string_of(&kind), question: string_of(&q) });
            seen.push(m);
        }
        i = i + 1;
        proof {
            let kept = kept_candidates(candidates@.take(i as int), needle@);
            if ok {
                assert(kept == prev.push((kind@, q@, mv)));
                assert(seen@ == old_seen.push(seen@.last()));
                assert(seen@.last()@ == mv);
                let sv = seen@.map_values(|v: Vec<char>| v@);
                let kv = kept.map_values(|t: (Seq<char>, Seq<char>, Seq<char>)| t.2);
                let ov = old_seen.map_values(|v: Vec<char>| v@);
                let pv = prev.map_values(|t: (Seq<char>, Seq<char>, Seq<char>)| t.2);
                assert(ov == pv);
                assert(sv.len() == seen@.len());
                assert(kv.len() == kept.len());
                assert(ov.len() == old_seen.len());
                assert(pv.len() == prev.len());
                assert(sv.len() == kv.len());
                assert forall|k: int| 0 <= k < sv.len() implies sv[k] == kv[k] by {
                    if k == old_seen.len() {
                        assert(sv[k] == seen@[k]@);
                        assert(kv[k] == kept[k].2);
                    }
                    if k < old_seen.len() {
                        assert(sv[k] == seen@[k]@);
                        assert(seen@[k] == old_seen[k]);
                        assert(ov[k] == old_seen[k]@);
                        assert(pv[k] == prev[k].2);
                        assert(kv[k] == kept[k].2);
                    }
                }
                assert(seen@.map_values(|v: Vec<char>| v@) =~= kept.map_values(
                    |t: (Seq<char>, Seq<char>, Seq<char>)| t.2,
                ));
            } else {
                assert(kept == prev);
            }
        }
    }
    assert(candidates@.take(candidates@.len() as int) =~= candidates@);
    if out.len() == 0 {
        return QuestionContent {
            unsuitable: true,
            reason: Some(owned("没有得到可用的问题")),
            candidates: Vec::new(),
            accepted_question: None,
        };
    }
    QuestionContent { unsuitable: false, reason: None, candidates: out, accepted_question: None }
}

pub open spec fn opt_view(o: Option<String>) -> Option<Seq<char>> {
    match o {
        Some(s) => Some(s@),
        None => None,
    }
}

// ---------- recall scaffolds ----------

#[derive(Debug, Clone, PartialEq)]
pub struct Scaffold {
    pub paraphrase: Option<String>,
    pub example: Option<String>,
    pub neighbors: Vec<CardRow>,
    pub source_card_ids: Vec<i64>,
    pub from_ai: bool,
}

pub open spec fn chapter_trim(c: CardRow) -> Seq<char> {
    match c.chapter_title {
        Some(t) => trim(t@),
        None => Seq::empty(),
    }
}

/// Two cards of the same book and chapter: equal chapter ids, or equal
/// non-blank (trimmed) chapter titles.
pub open spec fn same_chapter_spec(a: CardRow, b: CardRow) -> bool {
    if a.book_id is None || a.book_id != b.book_id {
        false
    } else {
        match (a.chapter_uid, b.chapter_uid) {
            (Some(x), Some(y)) if x == y => true,
            _ => chapter_trim(a).len() > 0 && chapter_trim(a) == chapter_trim(b),
        }
    }
}

fn chapter_trim_of(c: &CardRow) -> (r: Vec<char>)
    ensures
        r@ == chapter_trim(*c),
{
    match &c.chapter_title {
        Some(t) => trimmed(t.as_str()),
        None => Vec::new(),
    }
}

pub fn same_chapter(a: &CardRow, b: &CardRow) -> (r: bool)
    ensures
        r == same_chapter_spec(*a, *b),
{
    if a.book_id.is_none() || a.book_id != b.book_id {
        return false;
    }
    match (a.chapter_uid, b.chapter_uid) {
        (Some(x), Some(y)) => {
            if x == y {
                return true;
            }
        },
        _ => {},
    }
    let ta = chapter_trim_of(a);
    let tb = chapter_trim_of(b);
    ta.len() > 0 && same_text(&ta, &tb)
}

pub open spec fn abs_diff(a: i64, b: i64) -> int {
    if a - b < 0 {
        b - a
    } else {
        a - b
    }
}

pub open spec fn id_distance(center: i64) -> spec_fn(CardRow) -> int {
    |c: CardRow| abs_diff(c.id, center)
}

fn distance_of(id: i64, center: i64) -> (r: u64)
    ensures
        r as int == abs_diff(id, center),
{
    let d: i128 = (id as i128) - (center as i128);
    if d < 0 {
        (-d) as u64
    } else {
        d as u64
    }
}

/// Two sequences of cards hold the same values, position by position.
pub open spec fn cards_match(a: Seq<CardRow>, b: Seq<CardRow>) -> bool {
    &&& a.len() == b.len()
    &&& forall|i: int| 0 <= i < a.len() ==> same_card(#[trigger] a[i], b[i])
}

/// `out` holds copies of `src` sorted stably by `key`.
pub open spec fn sorted_copy_of(src: Seq<CardRow>, out: Seq<CardRow>, key: spec_fn(CardRow) -> int) -> bool {
    exists|cl: Seq<CardRow>, p: Seq<int>| cards_match(cl, src) && is_stable_sort(cl, out, key, p)
}

pub open spec fn near_pred(card: CardRow) -> spec_fn(CardRow) -> bool {
    |c: CardRow| c.id != card.id && same_chapter_spec(card, c)
}

pub open spec fn in_ids(head: Seq<CardRow>, id: i64) -> bool {
    exists|k: int| 0 <= k < head.len() && (#[trigger] head[k]).id == id
}

pub open spec fn rest_pred(card: CardRow, head: Seq<CardRow>) -> spec_fn(CardRow) -> bool {
    |c: CardRow| c.id != card.id && c.book_id == card.book_id && !in_ids(head, c.id)
}

pub open spec fn min_nat(a: int, b: int) -> int {
    if a < b {
        a
    } else {
        b
    }
}

/// The neighbours of a rule-based scaffold: cards of the same chapter
/// nearest by id first, then other cards of the same book nearest by id,
/// `limit` in all at most.
pub open spec fn neighbors_ok(card: CardRow, pool: Seq<CardRow>, limit: int, n: Seq<CardRow>) -> bool {
    let key = id_distance(card.id);
    exists|a: Seq<CardRow>|
        sorted_copy_of(pool.filter(near_pred(card)), a, key) && ({
            let head = a.take(min_nat(limit, a.len() as int));
            if a.len() < limit {
                exists|b: Seq<CardRow>|
                    sorted_copy_of(pool.filter(rest_pred(card, head)), b, key) && n == head + b.take(
                        min_nat(limit - a.len(), b.len() as int),
                    )
            } else {
                n == head
            }
        })
}

/// How far apart two card ids are, as a whole number.
pub open spec fn id_gap(a: i64, b: i64) -> int {
    let d = a as int - b as int;
    if d < 0 {
        -d
    } else {
        d
    }
}

/// The same-chapter neighbours of a rule-based scaffold come first and
/// are the nearest ones: they are ordered by the gap between their id and
/// the card's, and a card of the same chapter that was left out is no
/// nearer than any of them.
pub proof fn lemma_scaffold_nearest_first(card: CardRow, pool: Seq<CardRow>, limit: int, n: Seq<CardRow>)
    requires
        limit >= 0,
        neighbors_ok(card, pool, limit, n),
    ensures
        ({
            let near = pool.filter(near_pred(card));
            let m = min_nat(limit, near.len() as int);
            &&& m <= n.len()
            &&& forall|i: int| 0 <= i < m ==> (near_pred(card))(#[trigger] n[i])
            &&& forall|i: int, j: int|
                0 <= i < j < m ==> id_gap((#[trigger] n[i]).id, card.id) <= id_gap((#[trigger] n[j]).id, card.id)
            &&& forall|x: int|
                0 <= x < near.len() ==> (exists|i: int| 0 <= i < m && (#[trigger] n[i]).id == (#[trigger] near[x]).id)
                    || (forall|i: int| 0 <= i < m ==> id_gap((#[trigger] n[i]).id, card.id) <= id_gap(near[x].id, card.id))
        }),
{
    let key = id_distance(card.id);
    let near = pool.filter(near_pred(card));
    let a = choose|a: Seq<CardRow>|
        sorted_copy_of(near, a, key) && ({
            let head = a.take(min_nat(limit, a.len() as int));
            if a.len() < limit {
                exists|b: Seq<CardRow>|
                    sorted_copy_of(pool.filter(rest_pred(card, head)), b, key) && n == head + b.take(
                        min_nat(limit - a.len(), b.len() as int),
                    )
            } else {
                n == head
            }
        });
    let (cl, p) = choose|cl: Seq<CardRow>, p: Seq<int>| cards_match(cl, near) && is_stable_sort(cl, a, key, p);
    let m = min_nat(limit, near.len() as int);
    let head = a.take(m);
    assert(a.len() == near.len());
    assert(n.len() >= m && forall|i: int| 0 <= i < m ==> n[i] == a[i]) by {
        if a.len() < limit {
            let b = choose|b: Seq<CardRow>|
                sorted_copy_of(pool.filter(rest_pred(card, head)), b, key) && n == head + b.take(
                    min_nat(limit - a.len(), b.len() as int),
                );
            assert forall|i: int| 0 <= i < m implies n[i] == a[i] by {
                assert(n[i] == head[i]);
            }
        }
    }
    pool.filter_lemma(near_pred(card));
    // Each entry of the sorted copy is a copy of a same-chapter card of the pool.
    assert forall|i: int| 0 <= i < a.len() implies (near_pred(card))(#[trigger] a[i]) && key(a[i]) == id_gap(
        a[i].id,
        card.id,
    ) && a[i].id == near[p[i]].id by {
        let q = p[i];
        assert(a[i] == cl[q]);
        assert(same_card(cl[q], near[q]));
        assert((near_pred(card))(near[q]));
        assert(chapter_trim(a[i]) == chapter_trim(near[q]));
    }
    // Every same-chapter card of the pool has a copy somewhere in the sorted copy.
    assert forall|x: int| 0 <= x < near.len() implies exists|q: int| 0 <= q < a.len() && (#[trigger] a[q]).id == (#[trigger] near[x]).id
    by {
        assert(cl.contains(cl[x]));
        cl.to_multiset_ensures();
        a.to_multiset_ensures();
        assert(a.to_multiset().count(cl[x]) > 0);
        assert(a.contains(cl[x]));
        let q = choose|q: int| 0 <= q < a.len() && a[q] == cl[x];
        assert(same_card(cl[x], near[x]));
        assert(a[q].id == near[x].id);
    }
    assert forall|x: int| 0 <= x < near.len() implies (exists|i: int| 0 <= i < m && (#[trigger] n[i]).id == (#[trigger] near[x]).id)
        || (forall|i: int| 0 <= i < m ==> id_gap((#[trigger] n[i]).id, card.id) <= id_gap(near[x].id, card.id)) by {
        let q = choose|q: int| 0 <= q < a.len() && (#[trigger] a[q]).id == near[x].id;
        if q < m {
            assert(n[q].id == near[x].id);
        } else {
            assert forall|i: int| 0 <= i < m implies id_gap((#[trigger] n[i]).id, card.id) <= id_gap(
                near[x].id,
                card.id,
            ) by {
                assert(n[i] == a[i]);
                assert(key(a[i]) <= key(a[q]));
            }
        }
    }
    assert forall|i: int, j: int| 0 <= i < j < m implies id_gap((#[trigger] n[i]).id, card.id) <= id_gap(
        (#[trigger] n[j]).id,
        card.id,
    ) by {
        assert(n[i] == a[i] && n[j] == a[j]);
        assert(key(a[i]) <= key(a[j]));
    }
    assert forall|i: int| 0 <= i < m implies (near_pred(card))(#[trigger] n[i]) by {
        assert(n[i] == a[i]);
    }
}

/// The paraphrase of a rule-based scaffold: the trimmed note, cut to
/// its first 120 characters, when it is not blank.
pub open spec fn note_paraphrase(card: CardRow) -> Option<Seq<char>> {
    let n = trim(card.note@);
    if n.len() == 0 {
        None
    } else {
        Some(prefix(n, 120))
    }
}

pub open spec fn scaffold_pred(card: CardRow, head: Seq<CardRow>, near: bool) -> spec_fn(CardRow) -> bool {
    if near {
        near_pred(card)
    } else {
        rest_pred(card, head)
    }
}

fn has_id(cards: &Vec<CardRow>, id: i64) -> (r: bool)
    ensures
        r == in_ids(cards@, id),
{
    let mut i: usize = 0;
    while i < cards.len()
        invariant
            i <= cards@.len(),
            forall|k: int| 0 <= k < i ==> (#[trigger] cards@[k]).id != id,
        decreases cards@.len() - i,
    {
        if cards[i].id == id {
            return true;
        }
        i = i + 1;
    }
    false
}

/// Copies of the cards of `pool` that the predicate keeps, in pool order.
fn keep_cards(pool: &[CardRow], card: &CardRow, head: &Vec<CardRow>, near: bool) -> (r: Vec<CardRow>)
    ensures
        cards_match(r@, pool@.filter(scaffold_pred(*card, head@, near))),
{
    let ghost pred = scaffold_pred(*card, head@, near);
    let mut out: Vec<CardRow> = Vec::new();
    let mut i: usize = 0;
    while i < pool.len()
        invariant
            i <= pool@.len(),
            pred == scaffold_pred(*card, head@, near),
            cards_match(out@, pool@.take(i as int).filter(pred)),
        decreases pool@.len() - i,
    {
        let c = &pool[i];
        let keep = if near {
            c.id != card.id && same_chapter(card, c)
        } else {
            c.id != card.id && c.book_id == card.book_id && !has_id(head, c.id)
        };
        let ghost before = out@;
        proof {
            assert(pool@.take(i + 1) =~= pool@.take(i as int).push(pool@[i as int]));
            pool@.take(i as int).lemma_filter_push(pool@[i as int], pred);
            assert(keep == pred(pool@[i as int]));
        }
        if keep {
            out.push(c.duplicate());
            proof {
                let f = pool@.take(i as int).filter(pred);
                assert forall|k: int| 0 <= k < out@.len() implies same_card(
                    #[trigger] out@[k],
                    f.push(pool@[i as int])[k],
                ) by {
                    if k < before.len() {
                        assert(out@[k] == before[k]);
                    }
                }
            }
        }
        i = i + 1;
    }
    proof {
        assert(pool@.take(pool@.len() as int) =~= pool@);
    }
    out
}

fn distance_keys(cards: &Vec<CardRow>, center: i64) -> (r: Vec<Key3>)
    ensures
        r@.len() == cards@.len(),
        forall|i: int| 0 <= i < cards@.len() ==> key_value(r@[i]) == (id_distance(center))(#[trigger] cards@[i]),
{
    let mut out: Vec<Key3> = Vec::new();
    let mut i: usize = 0;
    while i < cards.len()
        invariant
            i <= cards@.len(),
            out@.len() == i,
            forall|k: int| 0 <= k < i ==> key_value(out@[k]) == (id_distance(center))(#[trigger] cards@[k]),
        decreases cards@.len() - i,
    {
        out.push((0, 0, distance_of(cards[i].id, center)));
        i = i + 1;
    }
    out
}

/// Copies of the cards that the predicate keeps, stably sorted by their
/// distance in id from `card`.
fn nearest(pool: &[CardRow], card: &CardRow, head: &Vec<CardRow>, near: bool) -> (r: Vec<CardRow>)
    ensures
        sorted_copy_of(pool@.filter(scaffold_pred(*card, head@, near)), r@, id_distance(card.id)),
{
    let kept = keep_cards(pool, card, head, near);
    let keys = distance_keys(&kept, card.id);
    let ghost cl = kept@;
    let r = stable_sort_cards(kept, keys, Ghost(id_distance(card.id)));
    proof {
        let p = choose|p: Seq<int>| is_stable_sort(cl, r@, id_distance(card.id), p);
        assert(cards_match(cl, pool@.filter(scaffold_pred(*card, head@, near))));
        assert(is_stable_sort(cl, r@, id_distance(card.id), p));
    }
    r
}

fn ids_of(cards: &Vec<CardRow>) -> (r: Vec<i64>)
    ensures
        r@ == cards@.map_values(|c: CardRow| c.id),
{
    let mut out: Vec<i64> = Vec::new();
    let mut i: usize = 0;
    while i < cards.len()
        invariant
            i <= cards@.len(),
            out@ == cards@.take(i as int).map_values(|c: CardRow| c.id),
        decreases cards@.len() - i,
    {
        out.push(cards[i].id);
        i = i + 1;
        proof {
            assert(cards@.take(i as int).map_values(|c: CardRow| c.id) =~= cards@.take(i - 1).map_values(
                |c: CardRow| c.id,
            ).push(cards@[i - 1].id));
        }
    }
    proof {
        assert(cards@.take(cards@.len() as int) =~= cards@);
    }
    out
}

/// A scaffold built without a model: the card's own note as paraphrase
/// and up to `limit` neighbouring cards, those of the same chapter first.
pub fn rule_scaffold(card: &CardRow, pool: &[CardRow], limit: usize) -> (r: Scaffold)
    ensures
        neighbors_ok(*card, pool@, limit as int, r.neighbors@),
        opt_view(r.paraphrase) == note_paraphrase(*card),
        r.example is None,
        r.source_card_ids@ == seq![card.id] + r.neighbors@.map_values(|c: CardRow| c.id),
        !r.from_ai,
{
    let empty: Vec<CardRow> = Vec::new();
    let mut neighbors = nearest(pool, card, &empty, true);
    let ghost a = neighbors@;
    let ghost key = id_distance(card.id);
    proof {
        assert(scaffold_pred(*card, empty@, true) == near_pred(*card));
    }
    neighbors.truncate(limit);
    let ghost head = neighbors@;
    assert(head =~= a.take(min_nat(limit as int, a.len() as int)));
    if neighbors.len() < limit {
        let mut rest = nearest(pool, card, &neighbors, false);
        let ghost b = rest@;
        proof {
            assert(scaffold_pred(*card, head, false) == rest_pred(*card, head));
        }
        let room = limit - neighbors.len();
        rest.truncate(room);
        neighbors.append(&mut rest);
        proof {
            assert(a.len() < limit);
            assert(neighbors@ =~= head + b.take(min_nat(limit - a.len(), b.len() as int)));
            assert(sorted_copy_of(pool@.filter(rest_pred(*card, head)), b, key));
        }
        assert(sorted_copy_of(pool@.filter(near_pred(*card)), a, key));
    } else {
        assert(sorted_copy_of(pool@.filter(near_pred(*card)), a, key));
    }
    let note = trimmed(card.note.as_str());
    let paraphrase = if note.len() == 0 {
        None
    } else {
        Some(string_of(&prefix_chars(&note, 120)))
    };
    let mut source_card_ids: Vec<i64> = Vec::new();
    source_card_ids.push(card.id);
    let mut more = ids_of(&neighbors);
    source_card_ids.append(&mut more);
    Scaffold { paraphrase, example: None, neighbors, source_card_ids, from_ai: false }
}

// ---------- scaffold prompts and replies ----------

pub const SCAFFOLD_SYSTEM_PROMPT: &'static str = "你是编者。用户刚刚忘记或觉得困难一张卡片。根据本卡、用户批注和给出的相邻卡，写一句白话解释，再给一个具体例子或易混概念。\
每句话都必须能回溯到提供的卡片。不要引入库外知识。\
只输出 JSON：{\"paraphrase\":\"一句白话\",\"example\":\"一个例子或相邻概念\",\"sourceCardIds\":[1,2]}";

/// The instructions sent with every scaffold request.
pub fn scaffold_system_prompt() -> (r: &'static str)
    ensures
        r@ == SCAFFOLD_SYSTEM_PROMPT@,
{
    SCAFFOLD_SYSTEM_PROMPT
}

/// One line per neighbour: its id and trimmed text.
pub open spec fn neighbor_lines(ns: Seq<CardRow>) -> Seq<char>
    decreases ns.len(),
{
    if ns.len() == 0 {
        Seq::empty()
    } else {
        neighbor_lines(ns.drop_last()) + "\n相邻 #"@ + dec_int(ns.last().id as int) + "："@ + trim(
            ns.last().text@,
        )
    }
}

pub open spec fn scaffold_prompt_spec(c: CardRow, ns: Seq<CardRow>) -> Seq<char> {
    let head = "本卡 #"@ + dec_int(c.id as int) + "："@ + trim(c.text@);
    let with_note = if trim(c.note@).len() > 0 {
        head + "\n批注："@ + trim(c.note@)
    } else {
        head
    };
    with_note + neighbor_lines(ns)
}

/// The request for a scaffold: the card, its note when it has one, and
/// each neighbour's id and text.
pub fn scaffold_user_prompt(card: &CardRow, neighbors: &[CardRow]) -> (r: String)
    ensures
        r@ == scaffold_prompt_spec(*card, neighbors@),
{
    let mut s = chars_of("本卡 #");
    push_dec_i64(&mut s, card.id);
    push_str(&mut s, "：");
    push_chars(&mut s, &trimmed(card.text.as_str()));
    let note = trimmed(card.note.as_str());
    if note.len() > 0 {
        push_str(&mut s, "\n批注：");
        push_chars(&mut s, &note);
    }
    let ghost start = s@;
    let mut i: usize = 0;
    while i < neighbors.len()
        invariant
            i <= neighbors@.len(),
            s@ == start + neighbor_lines(neighbors@.take(i as int)),
        decreases neighbors@.len() - i,
    {
        proof {
            assert(neighbors@.take(i + 1).drop_last() =~= neighbors@.take(i as int));
        }
        push_str(&mut s, "\n相邻 #");
        push_dec_i64(&mut s, neighbors[i].id);
        push_str(&mut s, "：");
        push_chars(&mut s, &trimmed(neighbors[i].text.as_str()));
        i = i + 1;
        assert(s@ =~= start + neighbor_lines(neighbors@.take(i as int)));
    }
    assert(neighbors@.take(neighbors@.len() as int) =~= neighbors@);
    string_of(&s)
}

/// The ids of `ids` that `allowed` holds, in order.
pub open spec fn allowed_ids(ids: Seq<i64>, allowed: Seq<i64>) -> Seq<i64> {
    ids.filter(|id: i64| allowed.contains(id))
}

fn contains_id(v: &Vec<i64>, id: i64) -> (r: bool)
    ensures
        r == v@.contains(id),
{
    let mut i: usize = 0;
    while i < v.len()
        invariant
            i <= v@.len(),
            forall|k: int| 0 <= k < i ==> v@[k] != id,
        decreases v@.len() - i,
    {
        if v[i] == id {
            return true;
        }
        i = i + 1;
    }
    false
}

fn keep_allowed(ids: &Vec<i64>, allowed: &Vec<i64>) -> (r: Vec<i64>)
    ensures
        r@ == allowed_ids(ids@, allowed@),
{
    let mut out: Vec<i64> = Vec::new();
    let mut i: usize = 0;
    while i < ids.len()
        invariant
            i <= ids@.len(),
            out@ == allowed_ids(ids@.take(i as int), allowed@),
        decreases ids@.len() - i,
    {
        proof {
            assert(ids@.take(i + 1) =~= ids@.take(i as int).push(ids@[i as int]));
            ids@.take(i as int).lemma_filter_push(ids@[i as int], |id: i64| allowed@.contains(id));
        }
        if contains_id(allowed, ids[i]) {
            out.push(ids[i]);
        }
        i = i + 1;
    }
    assert(ids@.take(ids@.len() as int) =~= ids@);
    out
}

pub open spec fn scaffold_reply_ok(paraphrase: Seq<char>) -> bool {
    6 <= trim(paraphrase).len() <= 80
}

/// Checks a model's scaffold reply, given the reply's `paraphrase` and
/// `example` strings (absent ones count as empty) and the integer ids it
/// cites: the trimmed paraphrase must have 6 to 80 characters, and only
/// ids in `allowed` are kept.
pub fn check_scaffold_reply(
    paraphrase: Option<String>,
    example: Option<String>,
    ids: &Vec<i64>,
    allowed: &Vec<i64>,
) -> (r: Result<(String, String, Vec<i64>), String>)
    ensures
        ({
            let p = match paraphrase {
                Some(s) => s@,
                None => Seq::<char>::empty(),
            };
            let e = match example {
                Some(s) => s@,
                None => Seq::<char>::empty(),
            };
            match r {
                Ok((rp, re, rids)) => scaffold_reply_ok(p) && rp@ == trim(p) && re@ == trim(e) && rids@
                    == allowed_ids(ids@, allowed@),
                Err(m) => !scaffold_reply_ok(p) && m@ == "支架解释不可用"@,
            }
        }),
{
    let p: Vec<char> = match &paraphrase {
        Some(s) => trimmed(s.as_str()),
        None => Vec::new(),
    };
    let e: Vec<char> = match &example {
        Some(s) => trimmed(s.as_str()),
        None => Vec::new(),
    };
    if p.len() < 6 || p.len() > 80 {
        return Err(owned("支架解释不可用"));
    }
    Ok((string_of(&p), string_of(&e), keep_allowed(ids, allowed)))
}

/// The scaffold shown after a model's reply was accepted: the rule-based
/// one with the reply's paraphrase, its example when not empty, and its
/// cited ids (the rule's when it cited none).
pub fn ai_scaffold(rule: &Scaffold, paraphrase: &str, example: &str, ids: &Vec<i64>) -> (r: Scaffold)
    ensures
        opt_view(r.paraphrase) == Some(paraphrase@),
        opt_view(r.example) == (if example@.len() == 0 {
            None
        } else {
            Some(example@)
        }),
        cards_match(r.neighbors@, rule.neighbors@),
        r.source_card_ids@ == (if ids@.len() == 0 {
            rule.source_card_ids@
        } else {
            ids@
        }),
        r.from_ai,
{
    let source_card_ids = if ids.len() == 0 {
        rule.source_card_ids.clone()
    } else {
        ids.clone()
    };
    let ex = chars_of(example);
    Scaffold {
        paraphrase: Some(owned(paraphrase)),
        example: if ex.len() == 0 {
            None
        } else {
            Some(owned(example))
        },
        neighbors: copy_cards(&rule.neighbors),
        source_card_ids,
        from_ai: true,
    }
}

pub fn copy_cards(cards: &Vec<CardRow>) -> (r: Vec<CardRow>)
    ensures
        cards_match(r@, cards@),
{
    let mut out: Vec<CardRow> = Vec::new();
    let mut i: usize = 0;
    while i < cards.len()
        invariant
            i <= cards@.len(),
            out@.len() == i,
            forall|k: int| 0 <= k < i ==> same_card(#[trigger] out@[k], cards@[k]),
        decreases cards@.len() - i,
    {
        out.push(cards[i].duplicate());
        i = i + 1;
    }
    out
}

/// A string field of a stored scaffold: trimmed, and absent when blank.
pub open spec fn stored_text(t: Option<Seq<char>>) -> Option<Seq<char>> {
    match t {
        Some(s) => if trim(s).len() == 0 {
            None
        } else {
            Some(trim(s))
        },
        None => None,
    }
}

fn stored_text_of(t: &Option<String>) -> (r: Option<String>)
    ensures
        opt_view(r) == stored_text(opt_view(*t)),
{
    match t {
        Some(s) => {
            let v = trimmed(s.as_str());
            if v.len() == 0 {
                None
            } else {
                Some(string_of(&v))
            }
        },
        None => None,
    }
}

pub open spec fn stored_neighbor(ids: Seq<i64>, primary: i64) -> spec_fn(CardRow) -> bool {
    |c: CardRow| ids.contains(c.id) && c.id != primary
}

/// A stored scaffold, given the strings of its content, its cited ids and
/// the pool of cards it was made from: the neighbours are the pool's cards
/// that it cites, but for its own card.
pub fn stored_scaffold(
    paraphrase: &Option<String>,
    example: &Option<String>,
    ids: Vec<i64>,
    primary_card_id: i64,
    pool: &[CardRow],
) -> (r: Scaffold)
    ensures
        opt_view(r.paraphrase) == stored_text(opt_view(*paraphrase)),
        opt_view(r.example) == stored_text(opt_view(*example)),
        cards_match(r.neighbors@, pool@.filter(stored_neighbor(ids@, primary_card_id))),
        r.source_card_ids@ == ids@,
        r.from_ai,
{
    let ghost pred = stored_neighbor(ids@, primary_card_id);
    let mut out: Vec<CardRow> = Vec::new();
    let mut i: usize = 0;
    while i < pool.len()
        invariant
            i <= pool@.len(),
            pred == stored_neighbor(ids@, primary_card_id),
            cards_match(out@, pool@.take(i as int).filter(pred)),
        decreases pool@.len() - i,
    {
        let c = &pool[i];
        let keep = contains_id(&ids, c.id) && c.id != primary_card_id;
        let ghost before = out@;
        proof {
            assert(pool@.take(i + 1) =~= pool@.take(i as int).push(pool@[i as int]));
            pool@.take(i as int).lemma_filter_push(pool@[i as int], pred);
        }
        if keep {
            out.push(c.duplicate());
            proof {
                let f = pool@.take(i as int).filter(pred);
                assert forall|k: int| 0 <= k < out@.len() implies same_card(
                    #[trigger] out@[k],
                    f.push(pool@[i as int])[k],
                ) by {
                    if k < before.len() {
                        assert(out@[k] == before[k]);
                    }
                }
            }
        }
        i = i + 1;
    }
    proof {
        assert(pool@.take(pool@.len() as int) =~= pool@);
    }
    Scaffold {
        paraphrase: stored_text_of(paraphrase),
        example: stored_text_of(example),
        neighbors: out,
        source_card_ids: ids,
        from_ai: true,
    }
}

// ---------- stored question faces ----------

/// An `ai_artifacts` row as read from the database; its JSON content is
/// parsed by the caller.
#[derive(Debug, Clone)]
pub struct ArtifactRow {
    pub id: i64,
    pub artifact_type: String,
    pub primary_card_id: i64,
    pub source_card_ids: String,
    pub input_hash: String,
    pub provider: String,
    pub model: String,
    pub prompt_version: String,
    pub content_json: String,
    pub status: String,
    pub user_edited: bool,
}

/// A stored artifact can be served from the cache: it was made from the
/// same input and is proposed or accepted.
pub open spec fn is_current_spec(input_hash: Seq<char>, expected: Seq<char>, status: Seq<char>) -> bool {
    input_hash == expected && (status == "proposed"@ || status == "accepted"@)
}

pub fn artifact_is_current(row: &ArtifactRow, expected_hash: &String) -> (r: bool)
    ensures
        r == is_current_spec(row.input_hash@, expected_hash@, row.status@),
{
    row.input_hash == *expected_hash && (string_is(&row.status, "proposed") || string_is(
        &row.status,
        "accepted",
    ))
}

/// A live question face whose card changed since it was made is to be
/// marked stale in the store.
pub open spec fn needs_stale_mark_spec(input_hash: Seq<char>, expected: Seq<char>, status: Seq<char>) -> bool {
    (status == "stale"@ || input_hash != expected) && (status == "accepted"@ || status == "proposed"@)
}

pub fn needs_stale_mark(row: &ArtifactRow, expected_hash: &String) -> (r: bool)
    ensures
        r == needs_stale_mark_spec(row.input_hash@, expected_hash@, row.status@),
{
    (string_is(&row.status, "stale") || row.input_hash != *expected_hash) && (string_is(
        &row.status,
        "accepted",
    ) || string_is(&row.status, "proposed"))
}

pub open spec fn face_is_stale(row: ArtifactRow, expected: Seq<char>) -> bool {
    row.status@ == "stale"@ || row.input_hash@ != expected
}

pub open spec fn first_question(c: QuestionContent) -> Option<Seq<char>> {
    if c.candidates@.len() > 0 {
        Some(c.candidates@[0].question@)
    } else {
        None
    }
}

/// The question face of a stored row whose content was parsed to
/// `content`. It is stale when the row says so or the card changed; an
/// accepted face that went stale keeps being shown, with status `stale`
/// and, when it had none, its first candidate as the accepted question.
pub fn to_question_face(row: ArtifactRow, content: QuestionContent, expected_hash: &String) -> (r: QuestionFace)
    ensures
        r.artifact_id == row.id,
        r.card_id == row.primary_card_id,
        r.stale == face_is_stale(row, expected_hash@),
        r.status@ == (if face_is_stale(row, expected_hash@) && row.status@ == "accepted"@ {
            "stale"@
        } else {
            row.status@
        }),
        r.content.unsuitable == content.unsuitable,
        r.content.reason == content.reason,
        r.content.candidates == content.candidates,
        opt_view(r.content.accepted_question) == (if face_is_stale(row, expected_hash@) && row.status@
            == "accepted"@ && content.accepted_question is None {
            first_question(content)
        } else {
            opt_view(content.accepted_question)
        }),
        r.user_edited == row.user_edited,
        r.provider == row.provider,
        r.model == row.model,
        r.prompt_version == row.prompt_version,
{
    let stale = string_is(&row.status, "stale") || row.input_hash != *expected_hash;
    let accepted = string_is(&row.status, "accepted");
    let mut content = content;
    if stale && accepted && content.accepted_question.is_none() && content.candidates.len() > 0 {
        content.accepted_question = Some(content.candidates[0].question.clone());
    }
    let status = if stale && accepted {
        owned("stale")
    } else {
        row.status
    };
    QuestionFace {
        artifact_id: row.id,
        card_id: row.primary_card_id,
        status,
        content,
        user_edited: row.user_edited,
        stale,
        provider: row.provider,
        model: row.model,
        prompt_version: row.prompt_version,
    }
}

/// A face that review can use: it has an accepted question and is
/// accepted or stale.
pub fn is_usable_face(face: &QuestionFace) -> (r: bool)
    ensures
        r == (face.content.accepted_question is Some && (face.status@ == "accepted"@ || face.status@
            == "stale"@)),
{
    face.content.accepted_question.is_some() && (string_is(&face.status, "accepted") || string_is(
        &face.status,
        "stale",
    ))
}

/// The question a face is accepted with: the trimmed edit when it is not
/// blank, else the face's accepted question, else its first candidate.
pub open spec fn chosen_question(c: QuestionContent, edited: Option<Seq<char>>) -> Seq<char> {
    match edited {
        Some(e) if trim(e).len() > 0 => trim(e),
        _ => match c.accepted_question {
            Some(q) => q@,
            None => c.candidates@[0].question@,
        },
    }
}

pub open spec fn is_edited(edited: Option<Seq<char>>) -> bool {
    match edited {
        Some(e) => trim(e).len() > 0,
        None => false,
    }
}

/// Accepting a face: refused when it is unsuitable or has no candidates,
/// or when the chosen question is not 8 to 96 characters long; else the
/// question and whether the user edited it.
pub fn accepted_question_of(content: &QuestionContent, edited: &Option<String>) -> (r: Result<(String, bool), String>)
    ensures
        (content.unsuitable || content.candidates@.len() == 0) ==> (r is Err && r->Err_0@
            == "这条不适合作为问题"@),
        !(content.unsuitable || content.candidates@.len() == 0) ==> ({
            let q = chosen_question(*content, opt_view(*edited));
            match r {
                Ok((rq, e)) => 8 <= q.len() <= 96 && rq@ == q && e == is_edited(opt_view(*edited)),
                Err(m) => !(8 <= q.len() <= 96) && m@ == "问题长度不合适"@,
            }
        }),
{
    if content.unsuitable || content.candidates.len() == 0 {
        return Err(owned("这条不适合作为问题"));
    }
    let e: Vec<char> = match edited {
        Some(s) => trimmed(s.as_str()),
        None => Vec::new(),
    };
    let user_edited = e.len() > 0;
    let q: Vec<char> = if user_edited {
        e
    } else {
        match &content.accepted_question {
            Some(a) => chars_of(a.as_str()),
            None => chars_of(content.candidates[0].question.as_str()),
        }
    };
    if q.len() < 8 || q.len() > 96 {
        return Err(owned("问题长度不合适"));
    }
    Ok((string_of(&q), user_edited))
}

// ---------- search hits ----------

#[derive(Debug, Clone, PartialEq)]
pub struct SearchHit {
    pub card: CardRow,
    pub match_kind: String,
}

/// Hits of a plain text search, each marked `lexical`, in order.
pub fn lexical_hits(rows: Vec<CardRow>) -> (r: Vec<SearchHit>)
    ensures
        r@.len() == rows@.len(),
        forall|i: int| 0 <= i < rows@.len() ==> (#[trigger] r@[i]).card == rows@[i] && r@[i].match_kind@
            == "lexical"@,
{
    let ghost orig = rows@;
    let mut rest = rows;
    let mut out: Vec<SearchHit> = Vec::new();
    while rest.len() > 0
        invariant
            out@.len() + rest@.len() == orig.len(),
            rest@ == orig.skip(out@.len() as int),
            forall|i: int| 0 <= i < out@.len() ==> (#[trigger] out@[i]).card == orig[i] && out@[i].match_kind@
                == "lexical"@,
        decreases rest@.len(),
    {
        let c = rest.remove(0);
        assert(c == orig[out@.len() as int]);
        out.push(SearchHit { card: c, match_kind: owned("lexical") });
        assert(rest@ =~= orig.skip(out@.len() as int));
    }
    out
}

/// How a fused hit was found: by both searches, or by one of them.
pub open spec fn match_kind_spec(lexical: Seq<CardRow>, semantic: Seq<CardRow>, id: i64) -> Seq<char> {
    if in_ids(lexical, id) && in_ids(semantic, id) {
        "both"@
    } else if !in_ids(lexical, id) && in_ids(semantic, id) {
        "semantic"@
    } else {
        "lexical"@
    }
}

pub open spec fn last_with_id(cs: Seq<CardRow>, id: i64) -> Option<CardRow>
    decreases cs.len(),
{
    if cs.len() == 0 {
        None
    } else if cs.last().id == id {
        Some(cs.last())
    } else {
        last_with_id(cs.drop_last(), id)
    }
}

pub open spec fn first_with_id(cs: Seq<CardRow>, id: i64) -> Option<CardRow>
    decreases cs.len(),
{
    if cs.len() == 0 {
        None
    } else if cs[0].id == id {
        Some(cs[0])
    } else {
        first_with_id(cs.drop_first(), id)
    }
}

/// The card a fused hit shows: the last one of the text search with that
/// id, else the first one of the semantic search.
pub open spec fn fused_card(lexical: Seq<CardRow>, semantic: Seq<CardRow>, id: i64) -> Option<CardRow> {
    match last_with_id(lexical, id) {
        Some(c) => Some(c),
        None => first_with_id(semantic, id),
    }
}

/// The fused hits for ids in ranked order; ids that neither search found
/// are left out.
pub open spec fn fused_hits(lexical: Seq<CardRow>, semantic: Seq<CardRow>, ranked: Seq<i64>) -> Seq<(CardRow, Seq<char>)>
    decreases ranked.len(),
{
    if ranked.len() == 0 {
        Seq::empty()
    } else {
        let rest = fused_hits(lexical, semantic, ranked.drop_last());
        match fused_card(lexical, semantic, ranked.last()) {
            Some(c) => rest.push((c, match_kind_spec(lexical, semantic, ranked.last()))),
            None => rest,
        }
    }
}

fn last_with_id_of(cs: &Vec<CardRow>, id: i64) -> (r: Option<CardRow>)
    ensures
        match (r, last_with_id(cs@, id)) {
            (Some(a), Some(b)) => same_card(a, b),
            (None, None) => true,
            _ => false,
        },
{
    let mut i: usize = cs.len();
    assert(cs@.take(cs@.len() as int) =~= cs@);
    while i > 0
        invariant
            i <= cs@.len(),
            last_with_id(cs@, id) == last_with_id(cs@.take(i as int), id),
        decreases i,
    {
        assert(cs@.take(i as int).drop_last() =~= cs@.take(i - 1));
        if cs[i - 1].id == id {
            return Some(cs[i - 1].duplicate());
        }
        i = i - 1;
    }
    None
}

fn first_with_id_of(cs: &Vec<CardRow>, id: i64) -> (r: Option<CardRow>)
    ensures
        match (r, first_with_id(cs@, id)) {
            (Some(a), Some(b)) => same_card(a, b),
            (None, None) => true,
            _ => false,
        },
{
    let mut i: usize = 0;
    assert(cs@.skip(0) =~= cs@);
    while i < cs.len()
        invariant
            i <= cs@.len(),
            first_with_id(cs@, id) == first_with_id(cs@.skip(i as int), id),
        decreases cs@.len() - i,
    {
        assert(cs@.skip(i as int).drop_first() =~= cs@.skip(i + 1));
        if cs[i].id == id {
            return Some(cs[i].duplicate());
        }
        i = i + 1;
    }
    None
}

/// Builds the hits of a fused search from the ids in their fused order,
/// each with the card it shows and how it was found.
pub fn fuse_hits(lexical: &Vec<CardRow>, semantic: &Vec<CardRow>, ranked: &Vec<i64>) -> (r: Vec<SearchHit>)
    ensures
        r@.len() == fused_hits(lexical@, semantic@, ranked@).len(),
        forall|i: int|
            0 <= i < r@.len() ==> same_card((#[trigger] r@[i]).card, fused_hits(lexical@, semantic@, ranked@)[i].0)
                && r@[i].match_kind@ == fused_hits(lexical@, semantic@, ranked@)[i].1,
{
    let mut out: Vec<SearchHit> = Vec::new();
    let mut i: usize = 0;
    while i < ranked.len()
        invariant
            i <= ranked@.len(),
            out@.len() == fused_hits(lexical@, semantic@, ranked@.take(i as int)).len(),
            forall|k: int|
                0 <= k < out@.len() ==> same_card(
                    (#[trigger] out@[k]).card,
                    fused_hits(lexical@, semantic@, ranked@.take(i as int))[k].0,
                ) && out@[k].match_kind@ == fused_hits(lexical@, semantic@, ranked@.take(i as int))[k].1,
        decreases ranked@.len() - i,
    {
        let id = ranked[i];
        proof {
            assert(ranked@.take(i + 1).drop_last() =~= ranked@.take(i as int));
        }
        let ghost before = out@;
        let in_lex = has_id(lexical, id);
        let in_sem = has_id(semantic, id);
        let card = match last_with_id_of(lexical, id) {
            Some(c) => Some(c),
            None => first_with_id_of(semantic, id),
        };
        match card {
            Some(c) => {
                let kind = if in_lex && in_sem {
                    owned("both")
                } else if !in_lex && in_sem {
                    owned("semantic")
                } else {
                    owned("lexical")
                };
                out.push(SearchHit { card: c, match_kind: kind });
                proof {
                    assert forall|k: int| 0 <= k < before.len() implies out@[k] == before[k] by {}
                }
            },
            None => {},
        }
        i = i + 1;
    }
    assert(ranked@.take(ranked@.len() as int) =~= ranked@);
    out
}

// ---------- embeddings ----------

/// How a provider is named in stored vectors and artifacts.
pub open spec fn provider_tag(p: Provider) -> Seq<char> {
    match p {
        Provider::Off => "off"@,
        Provider::Openai => "openai"@,
        Provider::Xai => "xai"@,
        Provider::Ollama => "ollama"@,
        Provider::Custom => "custom"@,
    }
}

pub fn provider_name(p: Provider) -> (r: &'static str)
    ensures
        r@ == provider_tag(p),
{
    match p {
        Provider::Off => "off",
        Provider::Openai => "openai",
        Provider::Xai => "xai",
        Provider::Ollama => "ollama",
        Provider::Custom => "custom",
    }
}

/// What a card's vector is computed from: its trimmed text and, when it
/// has one, its trimmed note, cut to 1200 characters. The book's title is
/// left out.
pub open spec fn embed_text(c: CardRow) -> Seq<char> {
    let t = if trim(c.note@).len() > 0 {
        trim(c.text@) + " "@ + trim(c.note@)
    } else {
        trim(c.text@)
    };
    prefix(t, 1200)
}

pub fn embed_text_for(card: &CardRow) -> (r: String)
    ensures
        r@ == embed_text(*card),
{
    let mut s = trimmed(card.text.as_str());
    let note = trimmed(card.note.as_str());
    if note.len() > 0 {
        push_str(&mut s, " ");
        push_chars(&mut s, &note);
    }
    string_of(&prefix_chars(&s, 1200))
}

/// A batch of cards whose vectors are to be computed.
pub struct EmbedJob {
    pub provider: String,
    pub model: String,
    pub base_url: String,
    pub key: String,
    /// Id, content hash and text of each card.
    pub items: Vec<(i64, String, String)>,
}

/// The content hash stored for a card: the last one given for its id.
pub open spec fn stored_hash(stored: Seq<(i64, String)>, id: i64) -> Option<Seq<char>>
    decreases stored.len(),
{
    if stored.len() == 0 {
        None
    } else if stored.last().0 == id {
        Some(stored.last().1@)
    } else {
        stored_hash(stored.drop_last(), id)
    }
}

/// A card's vector is missing or was made from other content.
pub open spec fn needs_vector(stored: Seq<(i64, String)>, c: CardRow) -> bool {
    match stored_hash(stored, c.id) {
        Some(h) => h != fnv_hex(content_key(c)),
        None => true,
    }
}

fn stored_hash_of(stored: &Vec<(i64, String)>, id: i64) -> (r: Option<String>)
    ensures
        opt_view(r) == stored_hash(stored@, id),
{
    let mut i: usize = stored.len();
    assert(stored@.take(stored@.len() as int) =~= stored@);
    while i > 0
        invariant
            i <= stored@.len(),
            stored_hash(stored@, id) == stored_hash(stored@.take(i as int), id),
        decreases i,
    {
        assert(stored@.take(i as int).drop_last() =~= stored@.take(i - 1));
        if stored[i - 1].0 == id {
            return Some(stored[i - 1].1.clone());
        }
        i = i - 1;
    }
    None
}

/// The cards that need a vector, in order: for each, its id, content hash
/// and text.
pub open spec fn pending_spec(cards: Seq<CardRow>, stored: Seq<(i64, String)>) -> Seq<(i64, Seq<char>, Seq<char>)>
    decreases cards.len(),
{
    if cards.len() == 0 {
        Seq::empty()
    } else {
        let rest = pending_spec(cards.drop_last(), stored);
        let c = cards.last();
        if needs_vector(stored, c) {
            rest.push((c.id, fnv_hex(content_key(c)), embed_text(c)))
        } else {
            rest
        }
    }
}

/// The first 128 cards whose vector is missing or out of date, given the
/// (id, hash) pairs of the vectors stored for the provider and model.
pub fn pending_embeddings(cards: &[CardRow], stored: &Vec<(i64, String)>) -> (r: Vec<(i64, String, String)>)
    ensures
        r@.len() == min_nat(128, pending_spec(cards@, stored@).len() as int),
        forall|i: int|
            0 <= i < r@.len() ==> ({
                let e = pending_spec(cards@, stored@)[i];
                (#[trigger] r@[i]).0 == e.0 && r@[i].1@ == e.1 && r@[i].2@ == e.2
            }),
{
    let mut out: Vec<(i64, String, String)> = Vec::new();
    let mut i: usize = 0;
    while i < cards.len() && out.len() < 128
        invariant
            i <= cards@.len(),
            out@.len() <= 128,
            out@.len() == min_nat(128, pending_spec(cards@.take(i as int), stored@).len() as int),
            out@.len() < 128 ==> out@.len() == pending_spec(cards@.take(i as int), stored@).len(),
            forall|k: int|
                0 <= k < out@.len() ==> ({
                    let e = pending_spec(cards@.take(i as int), stored@)[k];
                    (#[trigger] out@[k]).0 == e.0 && out@[k].1@ == e.1 && out@[k].2@ == e.2
                }),
        decreases cards@.len() - i,
    {
        let c = &cards[i];
        proof {
            assert(cards@.take(i + 1).drop_last() =~= cards@.take(i as int));
        }
        let h = card_content_hash(c);
        let need = match stored_hash_of(stored, c.id) {
            Some(old) => old != h,
            None => true,
        };
        if need {
            out.push((c.id, h, embed_text_for(c)));
        }
        i = i + 1;
    }
    proof {
        if out@.len() < 128 {
            assert(i == cards@.len());
            assert(cards@.take(i as int) =~= cards@);
        } else {
            lemma_pending_prefix(cards@, stored@, i as int);
        }
    }
    out
}

proof fn lemma_pending_prefix(cards: Seq<CardRow>, stored: Seq<(i64, String)>, i: int)
    requires
        0 <= i <= cards.len(),
    ensures
        pending_spec(cards.take(i), stored).len() <= pending_spec(cards, stored).len(),
        forall|k: int|
            0 <= k < pending_spec(cards.take(i), stored).len() ==> #[trigger] pending_spec(cards.take(i), stored)[k]
                == pending_spec(cards, stored)[k],
    decreases cards.len() - i,
{
    if i < cards.len() {
        lemma_pending_prefix(cards, stored, i + 1);
        assert(cards.take(i + 1).drop_last() =~= cards.take(i));
        let a = pending_spec(cards.take(i), stored);
        let b = pending_spec(cards.take(i + 1), stored);
        assert forall|k: int| 0 <= k < a.len() implies #[trigger] a[k] == pending_spec(cards, stored)[k] by {
            assert(a[k] == b[k]);
        }
    } else {
        assert(cards.take(i) =~= cards);
    }
}

// ---------- failed model calls ----------

/// The message when a model request never got an answer: the action and
/// what went wrong.
pub fn request_failed(action: &str, detail: &str) -> (r: String)
    ensures
        r@ == action@ + "失败。"@ + detail@,
{
    let mut m = chars_of(action);
    push_str(&mut m, "失败。");
    push_str(&mut m, detail);
    string_of(&m)
}

/// The message when the embedding endpoint returned another number of
/// vectors than it was sent texts.
pub fn vector_count_mismatch(asked: usize, got: usize) -> (r: String)
    ensures
        r@ == "向量条数不匹配：请求 "@ + dec(asked as nat) + "，返回 "@ + dec(got as nat),
{
    let mut m = chars_of("向量条数不匹配：请求 ");
    crate::text::push_dec_usize(&mut m, asked);
    push_str(&mut m, "，返回 ");
    crate::text::push_dec_usize(&mut m, got);
    string_of(&m)
}

// ---------- model replies ----------

/// The JSON object in a model's reply: from the first `{` to the last `}`
/// of the trimmed text, when both are there in that order.
pub open spec fn json_object_spec(raw: Seq<char>) -> Option<Seq<char>> {
    let t = trim(raw);
    let start = crate::text::first_pos(t, '{');
    match crate::text::last_pos(t, '}') {
        Some(end) => if start < t.len() && start <= end {
            Some(t.subrange(start as int, end + 1int))
        } else {
            None
        },
        None => None,
    }
}

/// The JSON object in a model's reply, or the error that it has none.
pub fn extract_json_object(raw: &str) -> (r: Result<String, String>)
    ensures
        match json_object_spec(raw@) {
            Some(j) => r matches Ok(s) && s@ == j,
            None => r matches Err(m) && m@ == "模型没有返回 JSON 对象"@,
        },
{
    let t = trimmed(raw);
    let start = crate::text::find_char(&t, '{');
    if start >= t.len() {
        return Err(owned("模型没有返回 JSON 对象"));
    }
    match crate::text::rfind_char(&t, '}') {
        Some(end) => {
            if end < start {
                return Err(owned("模型没有返回 JSON 对象"));
            }
            Ok(string_of(&crate::text::slice_chars(&t, start, end + 1)))
        },
        None => Err(owned("模型没有返回 JSON 对象")),
    }
}

} // verus!
