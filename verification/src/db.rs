//! The rows the local library stores and the decisions the storage layer
//! makes: which schema work a database needs, which migrations run, the
//! time a synced card is filed under, how a search is phrased, and the
//! order in which cards asked for by id come back. The SQL itself runs in
//! the application.
use vstd::prelude::*;
use crate::text::{
    chars_of, dec, dec_int, owned, push_chars, push_dec_i64, push_str, string_of, trim, trimmed,
};

verus! {

#[derive(Debug, Clone)]
pub struct BookRow {
    pub id: i64,
    pub weread_book_id: String,
    pub title: String,
    pub author: String,
    pub cover: String,
    pub reading_progress: i64,
    pub note_count: i64,
    pub review_count: i64,
    pub sync_reviews: bool,
    pub synced_at: Option<i64>,
}

#[derive(Debug, Clone, PartialEq)]
pub struct CardRow {
    pub id: i64,
    pub kind: String,
    pub book_id: Option<i64>,
    pub remote_id: Option<String>,
    pub chapter_uid: Option<i64>,
    pub chapter_title: Option<String>,
    pub text: String,
    pub abstract_text: Option<String>,
    pub range_str: Option<String>,
    pub color_style: i64,
    pub note: String,
    pub starred: bool,
    pub excluded_from_review: bool,
    pub created_at: i64,
    pub updated_at: i64,
    pub deleted: bool,
    /// The book's title from the join (empty for a card of one's own).
    pub book_title: String,
    /// The card's tags.
    pub tags: Vec<String>,
}

pub open spec fn opt_text(o: Option<String>) -> Option<Seq<char>> {
    match o {
        Some(s) => Some(s@),
        None => None,
    }
}

/// Two cards hold the same values.
pub open spec fn same_card(a: CardRow, b: CardRow) -> bool {
    &&& a.id == b.id
    &&& a.kind@ == b.kind@
    &&& a.book_id == b.book_id
    &&& opt_text(a.remote_id) == opt_text(b.remote_id)
    &&& a.chapter_uid == b.chapter_uid
    &&& opt_text(a.chapter_title) == opt_text(b.chapter_title)
    &&& a.text@ == b.text@
    &&& opt_text(a.abstract_text) == opt_text(b.abstract_text)
    &&& opt_text(a.range_str) == opt_text(b.range_str)
    &&& a.color_style == b.color_style
    &&& a.note@ == b.note@
    &&& a.starred == b.starred
    &&& a.excluded_from_review == b.excluded_from_review
    &&& a.created_at == b.created_at
    &&& a.updated_at == b.updated_at
    &&& a.deleted == b.deleted
    &&& a.book_title@ == b.book_title@
    &&& a.tags@.len() == b.tags@.len()
    &&& forall|i: int| 0 <= i < a.tags@.len() ==> (#[trigger] a.tags@[i])@ == b.tags@[i]@
}

pub fn copy_opt(o: &Option<String>) -> (r: Option<String>)
    ensures
        opt_text(r) == opt_text(*o),
{
    match o {
        Some(s) => Some(s.clone()),
        None => None,
    }
}

impl CardRow {
    /// A copy of the card.
    pub fn duplicate(&self) -> (r: CardRow)
        ensures
            same_card(r, *self),
    {
        let mut tags: Vec<String> = Vec::new();
        let mut i: usize = 0;
        while i < self.tags.len()
            invariant
                i <= self.tags@.len(),
                tags@.len() == i,
                forall|k: int| 0 <= k < i ==> (#[trigger] tags@[k])@ == self.tags@[k]@,
            decreases self.tags@.len() - i,
        {
            tags.push(self.tags[i].clone());
            i = i + 1;
        }
        CardRow {
            id: self.id,
            kind: self.kind.clone(),
            book_id: self.book_id,
            remote_id: copy_opt(&self.remote_id),
            chapter_uid: self.chapter_uid,
            chapter_title: copy_opt(&self.chapter_title),
            text: self.text.clone(),
            abstract_text: copy_opt(&self.abstract_text),
            range_str: copy_opt(&self.range_str),
            color_style: self.color_style,
            note: self.note.clone(),
            starred: self.starred,
            excluded_from_review: self.excluded_from_review,
            created_at: self.created_at,
            updated_at: self.updated_at,
            deleted: self.deleted,
            book_title: self.book_title.clone(),
            tags,
        }
    }
}

#[derive(Debug, Clone)]
pub struct CardFilter {
    pub book_id: Option<i64>,
    pub tag_ids: Vec<i64>,
    pub starred_only: bool,
    pub kinds: Vec<String>,
}

impl Default for CardFilter {
    fn default() -> (r: Self)
        ensures
            r.book_id is None,
            r.tag_ids@.len() == 0,
            !r.starred_only,
            r.kinds@.len() == 0,
    {
        CardFilter { book_id: None, tag_ids: Vec::new(), starred_only: false, kinds: Vec::new() }
    }
}

#[derive(Debug, Clone)]
pub struct NewBook {
    pub weread_book_id: String,
    pub title: String,
    pub author: String,
    pub cover: String,
    pub reading_progress: i64,
    pub note_count: i64,
    pub review_count: i64,
}

#[derive(Debug, Clone)]
pub struct UpsertCard<'a> {
    pub kind: &'a str,
    pub book_row_id: i64,
    pub remote_id: &'a str,
    pub chapter_uid: Option<i64>,
    pub chapter_title: Option<&'a str>,
    pub text: &'a str,
    pub abstract_text: Option<&'a str>,
    pub range_str: Option<&'a str>,
    pub color_style: i64,
    /// When the highlight or thought was made on the remote side (unix seconds).
    pub created_at: i64,
}

#[derive(Debug, Clone)]
pub struct TagRow {
    pub id: i64,
    pub name: String,
}

// ---------- schema ----------

/// The schema version this application writes.
pub const LATEST_VERSION: i64 = 2;

#[derive(Debug, Clone, Copy, PartialEq, Eq, Structural)]
pub enum SchemaPlan {
    /// An empty database.
    Fresh,
    /// Already at the latest version.
    Current,
    /// An older database to be upgraded from this version.
    UpgradeFrom(i64),
}

/// What a database needs, from its `user_version` and whether it holds the
/// `books` table. A database newer than the application is refused and
/// left untouched.
pub fn schema_plan(version: i64, has_books_table: bool) -> (r: Result<SchemaPlan, String>)
    ensures
        version > LATEST_VERSION ==> (r matches Err(m) && m@ == "数据库版本 v"@ + dec_int(
            version as int,
        ) + " 高于当前应用支持的 v2，请先升级应用；原库未被改动"@),
        version <= LATEST_VERSION && !has_books_table ==> r == Ok::<SchemaPlan, String>(
            SchemaPlan::Fresh,
        ),
        version < LATEST_VERSION && has_books_table ==> r == Ok::<SchemaPlan, String>(
            SchemaPlan::UpgradeFrom(version),
        ),
        version == LATEST_VERSION && has_books_table ==> r == Ok::<SchemaPlan, String>(
            SchemaPlan::Current,
        ),
{
    if version > LATEST_VERSION {
        let mut m = chars_of("数据库版本 v");
        push_dec_i64(&mut m, version);
        push_str(&mut m, " 高于当前应用支持的 v2，请先升级应用；原库未被改动");
        return Err(string_of(&m));
    }
    if !has_books_table {
        return Ok(SchemaPlan::Fresh);
    }
    if version < LATEST_VERSION {
        return Ok(SchemaPlan::UpgradeFrom(version));
    }
    Ok(SchemaPlan::Current)
}

/// The versions the migrations lead to, in the order they run.
pub open spec fn migration_targets() -> Seq<i64> {
    seq![1i64, 2i64]
}

/// The migrations a database at version `from` still needs: those whose
/// target is above it, in order, each exactly once.
pub fn migrations_after(from: i64) -> (r: Vec<i64>)
    ensures
        r@ == migration_targets().filter(|t: i64| t > from),
{
    let mut out: Vec<i64> = Vec::new();
    if 1 > from {
        out.push(1);
    }
    if 2 > from {
        out.push(2);
    }
    proof {
        let s = migration_targets();
        reveal_with_fuel(Seq::<i64>::filter, 3);
        assert(s.drop_last() =~= seq![1i64]);
        assert(s.drop_last().drop_last() =~= Seq::<i64>::empty());
        assert(out@ =~= s.filter(|t: i64| t > from));
    }
    out
}

// ---------- cards ----------

/// The time a synced card is filed under: the remote creation time, held
/// back to `now` when it lies in the future, and `now` when the remote
/// gave none.
pub fn effective_created_at(remote: i64, now: i64) -> (r: i64)
    ensures
        remote > 0 && remote <= now ==> r == remote,
        remote > 0 && remote > now ==> r == now,
        remote <= 0 ==> r == now,
{
    if remote > 0 {
        if remote < now {
            remote
        } else {
            now
        }
    } else {
        now
    }
}

/// The search phrase for the full-text index: queries of three or more
/// characters (after trimming) go to the trigram index as one quoted phrase
/// with inner quotes doubled; shorter ones are matched with `LIKE` as they
/// are.
pub open spec fn fts_phrase(q: Seq<char>) -> Seq<char>
    decreases q.len(),
{
    if q.len() == 0 {
        Seq::empty()
    } else if q.last() == '"' {
        fts_phrase(q.drop_last()) + seq!['"', '"']
    } else {
        fts_phrase(q.drop_last()).push(q.last())
    }
}

/// `(uses the index, the bound search argument)`.
pub fn search_argument(q: &str) -> (r: (bool, String))
    ensures
        r.0 == (trim(q@).len() >= 3),
        r.0 ==> r.1@ == seq!['"'] + fts_phrase(trim(q@)) + seq!['"'],
        !r.0 ==> r.1@ == trim(q@),
{
    let t = trimmed(q);
    if t.len() < 3 {
        return (false, string_of(&t));
    }
    let mut out: Vec<char> = Vec::new();
    out.push('"');
    let mut i: usize = 0;
    while i < t.len()
        invariant
            i <= t@.len(),
            out@ == seq!['"'] + fts_phrase(t@.take(i as int)),
        decreases t@.len() - i,
    {
        let c = t[i];
        proof {
            assert(t@.take(i + 1).drop_last() =~= t@.take(i as int));
            assert(t@.take(i + 1).last() == c);
        }
        if c == '"' {
            out.push('"');
            out.push('"');
        } else {
            out.push(c);
        }
        i = i + 1;
        assert(out@ =~= seq!['"'] + fts_phrase(t@.take(i as int)));
    }
    out.push('"');
    assert(t@.take(t@.len() as int) =~= t@);
    (true, string_of(&out))
}

/// Reads the inside of a quoted full-text phrase back: a doubled quote
/// stands for one quote.
pub open spec fn fts_unescape(p: Seq<char>) -> Seq<char>
    decreases p.len(),
{
    if p.len() == 0 {
        Seq::empty()
    } else if p.len() >= 2 && p.last() == '"' && p[p.len() - 2] == '"' {
        fts_unescape(p.drop_last().drop_last()).push('"')
    } else {
        fts_unescape(p.drop_last()).push(p.last())
    }
}

/// The quoted search phrase says exactly what was typed: read back, it is
/// the query itself, quotes included, so no character of the query acts as
/// full-text syntax.
pub proof fn lemma_search_phrase_reads_back(q: Seq<char>)
    ensures
        fts_unescape(fts_phrase(q)) == q,
    decreases q.len(),
{
    if q.len() > 0 {
        let d = q.drop_last();
        lemma_search_phrase_reads_back(d);
        let p = fts_phrase(q);
        if q.last() == '"' {
            assert(p == fts_phrase(d) + seq!['"', '"']);
            assert(p.drop_last().drop_last() =~= fts_phrase(d));
        } else {
            assert(p == fts_phrase(d).push(q.last()));
            assert(p.drop_last() =~= fts_phrase(d));
        }
        assert(q =~= d.push(q.last()));
    }
}

/// The position a card takes when cards are asked for by id: the last
/// place its id has in the request, cards not asked for after all others.
pub open spec fn id_rank(ids: Seq<i64>, id: i64) -> int
    decreases ids.len(),
{
    if ids.len() == 0 {
        usize::MAX as int
    } else if ids.last() == id {
        ids.len() - 1
    } else {
        id_rank(ids.drop_last(), id)
    }
}

fn rank_of(ids: &[i64], id: i64) -> (r: usize)
    ensures
        r as int == id_rank(ids@, id),
{
    let mut j: usize = ids.len();
    assert(ids@.take(ids@.len() as int) =~= ids@);
    while j > 0 && ids[j - 1] != id
        invariant
            j <= ids@.len(),
            id_rank(ids@, id) == id_rank(ids@.take(j as int), id),
        decreases j,
    {
        proof {
            let t = ids@.take(j as int);
            assert(t.drop_last() =~= ids@.take(j - 1));
        }
        j = j - 1;
    }
    proof {
        assert(ids@.take(ids@.len() as int) =~= ids@);
    }
    if j == 0 {
        assert(ids@.take(0) =~= Seq::<i64>::empty());
        usize::MAX
    } else {
        j - 1
    }
}

/// `out` is `src` rearranged by the index map `p`, keeping the order of
/// cards of equal rank.
pub open spec fn is_stable_order(src: Seq<CardRow>, out: Seq<CardRow>, ids: Seq<i64>, p: Seq<int>) -> bool {
    &&& p.len() == src.len()
    &&& out.len() == src.len()
    &&& forall|i: int| 0 <= i < p.len() ==> 0 <= #[trigger] p[i] < src.len()
    &&& forall|i: int, j: int| 0 <= i < j < p.len() ==> #[trigger] p[i] != #[trigger] p[j]
    &&& forall|i: int| 0 <= i < p.len() ==> #[trigger] out[i] == src[p[i]]
    &&& forall|i: int, j: int|
        0 <= i < j < p.len() && id_rank(ids, out[i].id) == id_rank(ids, out[j].id) ==> #[trigger] p[i]
            < #[trigger] p[j]
}

/// Orders cards as their ids were asked for (a stable sort by `id_rank`):
/// the result holds the same cards, ranks never decrease, and cards of
/// equal rank keep their order.
pub fn order_by_ids(rows: Vec<CardRow>, ids: &[i64]) -> (r: Vec<CardRow>)
    ensures
        r@.len() == rows@.len(),
        forall|i: int, j: int|
            0 <= i < j < r@.len() ==> id_rank(ids@, #[trigger] r@[i].id) <= id_rank(
                ids@,
                #[trigger] r@[j].id,
            ),
        exists|p: Seq<int>| is_stable_order(rows@, r@, ids@, p),
{
    let mut out: Vec<CardRow> = Vec::new();
    let mut keys: Vec<usize> = Vec::new();
    let ghost mut p: Seq<int> = Seq::empty();
    let mut rest = rows;
    let ghost orig = rest@;
    assert(orig.len() == rest.len());
    let mut n: usize = 0;
    // Insertion sort: each card goes after every card of rank <= its own.
    while rest.len() > 0
        invariant
            n + rest@.len() == orig.len(),
            orig.len() <= usize::MAX,
            rest@ == orig.skip(n as int),
            out@.len() == n,
            keys@.len() == n,
            p.len() == n,
            forall|i: int| 0 <= i < n ==> keys@[i] as int == id_rank(ids@, #[trigger] out@[i].id),
            forall|i: int, j: int| 0 <= i < j < n ==> #[trigger] keys@[i] <= #[trigger] keys@[j],
            forall|i: int| 0 <= i < n ==> 0 <= #[trigger] p[i] < n,
            forall|i: int, j: int| 0 <= i < j < n ==> #[trigger] p[i] != #[trigger] p[j],
            forall|i: int| 0 <= i < n ==> #[trigger] out@[i] == orig[p[i]],
            forall|i: int, j: int|
                0 <= i < j < n && #[trigger] keys@[i] == #[trigger] keys@[j] ==> p[i] < p[j],
        decreases rest@.len(),
    {
        let c = rest.remove(0);
        assert(c == orig[n as int]);
        let k = rank_of(ids, c.id);
        let mut pos: usize = out.len();
        while pos > 0 && keys[pos - 1] > k
            invariant
                pos <= out@.len(),
                out@.len() == keys@.len(),
                forall|i: int| pos <= i < keys@.len() ==> #[trigger] keys@[i] > k,
            decreases pos,
        {
            pos = pos - 1;
        }
        proof {
            let old_p = p;
            p = old_p.insert(pos as int, n as int);
        }
        out.insert(pos, c);
        keys.insert(pos, k);
        n = n + 1;
        proof {
            assert(rest@ =~= orig.skip(n as int));
            assert forall|i: int, j: int| 0 <= i < j < n implies #[trigger] keys@[i] <= #[trigger] keys@[j] by {
            }
        }
    }
    proof {
        assert forall|i: int, j: int|
            0 <= i < j < out@.len() implies id_rank(ids@, #[trigger] out@[i].id) <= id_rank(
            ids@,
            #[trigger] out@[j].id,
        ) by {
            assert(keys@[i] <= keys@[j]);
        }
        assert forall|i: int, j: int|
            0 <= i < j < p.len() && id_rank(ids@, out@[i].id) == id_rank(ids@, out@[j].id) implies #[trigger] p[i]
            < #[trigger] p[j] by {
            assert(keys@[i] == keys@[j]);
        }
        assert(is_stable_order(orig, out@, ids@, p));
    }
    out
}

/// The cards of a book that the latest sync did not return: their rows are
/// marked as removed on the remote side. `rows` are `(card id, remote id)`.
pub open spec fn absent(present: Seq<String>, rid: Seq<char>) -> bool {
    forall|j: int| 0 <= j < present.len() ==> (#[trigger] present[j])@ != rid
}

pub fn ids_removed_remotely(rows: &Vec<(i64, String)>, present: &Vec<String>) -> (r: Vec<i64>)
    ensures
        r@ == rows@.filter(|row: (i64, String)| absent(present@, row.1@)).map_values(
            |row: (i64, String)| row.0,
        ),
{
    let mut out: Vec<i64> = Vec::new();
    let mut i: usize = 0;
    while i < rows.len()
        invariant
            i <= rows@.len(),
            out@ == rows@.take(i as int).filter(|row: (i64, String)| absent(present@, row.1@)).map_values(
                |row: (i64, String)| row.0,
            ),
        decreases rows@.len() - i,
    {
        let rid = chars_of(rows[i].1.as_str());
        let mut found = false;
        let mut j: usize = 0;
        while j < present.len()
            invariant
                j <= present@.len(),
                rid@ == rows@[i as int].1@,
                found == exists|k: int| 0 <= k < j && (#[trigger] present@[k])@ == rid@,
            decreases present@.len() - j,
        {
            let pj = chars_of(present[j].as_str());
            if crate::text::same_text(&pj, &rid) {
                found = true;
            }
            j = j + 1;
        }
        proof {
            let t = rows@.take(i + 1);
            assert(t.drop_last() =~= rows@.take(i as int));
            reveal_with_fuel(Seq::<(i64, String)>::filter, 1);
        }
        if !found {
            out.push(rows[i].0);
        }
        i = i + 1;
        proof {
            let f = |row: (i64, String)| absent(present@, row.1@);
            let g = |row: (i64, String)| row.0;
            let t = rows@.take(i as int);
            assert(t.drop_last() =~= rows@.take(i - 1));
            if found {
                assert(!absent(present@, t.last().1@));
            }
            assert(out@ =~= t.filter(f).map_values(g));
        }
    }
    assert(rows@.take(rows@.len() as int) =~= rows@);
    out
}

// ---------- settings ----------

/// The review batch sizes a user can choose.
pub open spec fn batch_option(n: i64) -> bool {
    n == 10 || n == 20 || n == 30
}

pub const DEFAULT_REVIEW_BATCH: i64 = 20;

/// Key of the stored review batch size.
pub const KEY_REVIEW_BATCH: &'static str = "review_batch_size";

/// Key of the marker stored once creation times were repaired.
pub const KEY_CREATED_AT_REPAIR: &'static str = "created_at_repair_v1";

/// Checks a requested review batch size.
pub fn check_batch_size(size: i64) -> (r: Result<(), String>)
    ensures
        batch_option(size) ==> r is Ok,
        !batch_option(size) ==> (r matches Err(m) && m@ == "每批张数仅支持 10 / 20 / 30"@),
{
    if size == 10 || size == 20 || size == 30 {
        Ok(())
    } else {
        Err(owned("每批张数仅支持 10 / 20 / 30"))
    }
}

/// The batch size in effect: the stored value when it is one of the
/// choices, otherwise the default.
pub fn batch_size_from(stored: Option<i64>) -> (r: i64)
    ensures
        stored matches Some(v) && batch_option(v) ==> r == stored->0,
        !(stored matches Some(v) && batch_option(v)) ==> r == DEFAULT_REVIEW_BATCH,
{
    match stored {
        Some(v) => if v == 10 || v == 20 || v == 30 {
            v
        } else {
            DEFAULT_REVIEW_BATCH
        },
        None => DEFAULT_REVIEW_BATCH,
    }
}

/// Deleting a card of one's own removes it; a synced card is only hidden,
/// so that the next sync does not bring it back.
pub fn delete_removes_row(kind: &str) -> (r: bool)
    ensures
        r == (kind@ == "self"@),
{
    let k = chars_of(kind);
    crate::text::text_is(&k, "self")
}

// ---------- filters as SQL ----------

/// A value bound to a query placeholder.
#[derive(Debug, Clone, PartialEq)]
pub enum SqlParam {
    Int(i64),
    Text(String),
}

pub open spec fn param_view(p: SqlParam) -> (bool, int, Seq<char>) {
    match p {
        SqlParam::Int(v) => (true, v as int, Seq::empty()),
        SqlParam::Text(s) => (false, 0, s@),
    }
}

pub open spec fn params_view(ps: Seq<SqlParam>) -> Seq<(bool, int, Seq<char>)> {
    ps.map_values(|p: SqlParam| param_view(p))
}

/// Placeholders `?start,?start+1,…` for `n` values.
pub open spec fn placeholders(start: nat, n: nat) -> Seq<char>
    decreases n,
{
    if n == 0 {
        Seq::empty()
    } else if n == 1 {
        "?"@ + dec(start)
    } else {
        placeholders(start, (n - 1) as nat) + ",?"@ + dec((start + n - 1) as nat)
    }
}

/// The conditions and bound values of a card filter, with placeholders
/// numbered after `bound` values already bound: the book, starred only,
/// the kinds (any of them), and the tags (any of them).
pub open spec fn filter_spec(f: CardFilter, bound: nat) -> (Seq<Seq<char>>, Seq<(bool, int, Seq<char>)>) {
    let (c1, p1) = match f.book_id {
        Some(b) => (seq!["c.book_id=?"@ + dec(bound + 1)], seq![(true, b as int, Seq::<char>::empty())]),
        None => (Seq::<Seq<char>>::empty(), Seq::<(bool, int, Seq<char>)>::empty()),
    };
    let c2 = if f.starred_only {
        c1.push("c.starred=1"@)
    } else {
        c1
    };
    let k = f.kinds@;
    let (c3, p3) = if k.len() > 0 {
        (
            c2.push("c.kind IN ("@ + placeholders(bound + p1.len() + 1, k.len()) + ")"@),
            p1 + k.map_values(|s: String| (false, 0int, s@)),
        )
    } else {
        (c2, p1)
    };
    let t = f.tag_ids@;
    if t.len() > 0 {
        (
            c3.push("c.id IN (SELECT card_id FROM card_tags WHERE tag_id IN ("@ + placeholders(
                bound + p3.len() + 1,
                t.len(),
            ) + "))"@),
            p3 + t.map_values(|v: i64| (true, v as int, Seq::<char>::empty())),
        )
    } else {
        (c3, p3)
    }
}

fn push_placeholders(out: &mut Vec<char>, start: usize, n: usize)
    requires
        start + n <= usize::MAX,
    ensures
        final(out)@ == old(out)@ + placeholders(start as nat, n as nat),
{
    let ghost base = old(out)@;
    let mut i: usize = 0;
    while i < n
        invariant
            i <= n,
            start + n <= usize::MAX,
            out@ == base + placeholders(start as nat, i as nat),
        decreases n - i,
    {
        if i == 0 {
            push_str(out, "?");
        } else {
            push_str(out, ",?");
        }
        crate::text::push_dec_usize(out, start + i);
        i = i + 1;
        assert(out@ =~= base + placeholders(start as nat, i as nat));
    }
}

/// The WHERE conditions and bound values of a card filter; `bound` values
/// are already bound before these.
pub fn filter_conditions(filter: &CardFilter, bound: usize) -> (r: (Vec<String>, Vec<SqlParam>))
    requires
        bound + filter.kinds@.len() + filter.tag_ids@.len() + 2 <= usize::MAX,
    ensures
        r.0@.map_values(|s: String| s@) == filter_spec(*filter, bound as nat).0,
        params_view(r.1@) == filter_spec(*filter, bound as nat).1,
{
    let mut conds: Vec<String> = Vec::new();
    let mut params: Vec<SqlParam> = Vec::new();
    let ghost spec = filter_spec(*filter, bound as nat);
    match filter.book_id {
        Some(b) => {
            let mut c = chars_of("c.book_id=?");
            crate::text::push_dec_usize(&mut c, bound + 1);
            conds.push(string_of(&c));
            params.push(SqlParam::Int(b));
        },
        None => {},
    }
    if filter.starred_only {
        conds.push(owned("c.starred=1"));
    }
    let ghost p1 = params_view(params@);
    if filter.kinds.len() > 0 {
        let mut c = chars_of("c.kind IN (");
        push_placeholders(&mut c, bound + params.len() + 1, filter.kinds.len());
        push_str(&mut c, ")");
        conds.push(string_of(&c));
        let mut i: usize = 0;
        while i < filter.kinds.len()
            invariant
                i <= filter.kinds@.len(),
                params_view(params@) == p1 + filter.kinds@.take(i as int).map_values(
                    |s: String| (false, 0int, s@),
                ),
            decreases filter.kinds@.len() - i,
        {
            let ghost before = params_view(params@);
            let k = filter.kinds[i].clone();
            assert(k@ == filter.kinds@[i as int]@);
            params.push(SqlParam::Text(k));
            proof {
                assert(params_view(params@) =~= before.push((false, 0int, filter.kinds@[i as int]@)));
                assert(filter.kinds@.take(i + 1).map_values(|s: String| (false, 0int, s@)) =~= filter.kinds@.take(
                    i as int,
                ).map_values(|s: String| (false, 0int, s@)).push((false, 0int, filter.kinds@[i as int]@)));
            }
            i = i + 1;
            assert(params_view(params@) =~= p1 + filter.kinds@.take(i as int).map_values(
                |s: String| (false, 0int, s@),
            ));
        }
        assert(filter.kinds@.take(filter.kinds@.len() as int) =~= filter.kinds@);
    }
    let ghost p3 = params_view(params@);
    if filter.tag_ids.len() > 0 {
        let mut c = chars_of("c.id IN (SELECT card_id FROM card_tags WHERE tag_id IN (");
        push_placeholders(&mut c, bound + params.len() + 1, filter.tag_ids.len());
        push_str(&mut c, "))");
        conds.push(string_of(&c));
        let mut i: usize = 0;
        while i < filter.tag_ids.len()
            invariant
                i <= filter.tag_ids@.len(),
                params_view(params@) == p3 + filter.tag_ids@.take(i as int).map_values(
                    |v: i64| (true, v as int, Seq::<char>::empty()),
                ),
            decreases filter.tag_ids@.len() - i,
        {
            let ghost before = params_view(params@);
            params.push(SqlParam::Int(filter.tag_ids[i]));
            proof {
                let v = filter.tag_ids@[i as int];
                assert(params_view(params@) =~= before.push((true, v as int, Seq::<char>::empty())));
                assert(filter.tag_ids@.take(i + 1).map_values(|v: i64| (true, v as int, Seq::<char>::empty()))
                    =~= filter.tag_ids@.take(i as int).map_values(|v: i64| (true, v as int, Seq::<char>::empty())).push(
                    (true, v as int, Seq::<char>::empty()),
                ));
            }
            i = i + 1;
            assert(params_view(params@) =~= p3 + filter.tag_ids@.take(i as int).map_values(
                |v: i64| (true, v as int, Seq::<char>::empty()),
            ));
        }
        assert(filter.tag_ids@.take(filter.tag_ids@.len() as int) =~= filter.tag_ids@);
    }
    assert(conds@.map_values(|s: String| s@) =~= spec.0);
    assert(params_view(params@) =~= spec.1);
    (conds, params)
}

} // verus!
