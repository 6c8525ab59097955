//! Sorting: integers into ascending order, and cards stably by a key.
use vstd::prelude::*;
use vstd::relations::{sorted_by, total_ordering};
use vstd::seq_lib::lemma_sorted_unique;
use crate::db::CardRow;

verus! {

pub open spec fn le_i64(a: i64, b: i64) -> bool {
    a <= b
}

pub proof fn lemma_le_i64_total()
    ensures
        total_ordering(|a: i64, b: i64| le_i64(a, b)),
{
}

proof fn lemma_insert_multiset(s: Seq<i64>, pos: int, x: i64)
    requires
        0 <= pos <= s.len(),
    ensures
        s.insert(pos, x).to_multiset() =~= s.to_multiset().insert(x),
{
    broadcast use vstd::seq_lib::group_to_multiset_ensures;
    broadcast use vstd::multiset::group_multiset_axioms;
    let a = s.take(pos);
    let b = s.skip(pos);
    assert(s =~= a + b);
    assert(s.insert(pos, x) =~= a + (seq![x] + b));
    vstd::seq_lib::lemma_multiset_commutative(a, seq![x] + b);
    vstd::seq_lib::lemma_multiset_commutative(seq![x], b);
    vstd::seq_lib::lemma_multiset_commutative(a, b);
}

/// The integers in ascending order (`slice::sort`).
pub fn sort_i64(v: &Vec<i64>) -> (r: Vec<i64>)
    ensures
        r@ == v@.sort_by(|a: i64, b: i64| le_i64(a, b)),
{
    broadcast use vstd::seq_lib::group_to_multiset_ensures;
    let mut out: Vec<i64> = Vec::new();
    let mut i: usize = 0;
    while i < v.len()
        invariant
            i <= v@.len(),
            forall|a: int, b: int| 0 <= a < b < out@.len() ==> #[trigger] out@[a] <= #[trigger] out@[b],
            out@.to_multiset() == v@.take(i as int).to_multiset(),
        decreases v@.len() - i,
    {
        let x = v[i];
        let mut pos: usize = out.len();
        while pos > 0 && out[pos - 1] > x
            invariant
                pos <= out@.len(),
                forall|k: int| pos <= k < out@.len() ==> #[trigger] out@[k] > x,
            decreases pos,
        {
            pos = pos - 1;
        }
        let ghost old_out = out@;
        proof {
            lemma_insert_multiset(out@, pos as int, x);
            assert(v@.take(i + 1) =~= v@.take(i as int).push(x));
            v@.take(i as int).to_multiset_ensures();
            assert(v@.take(i + 1).to_multiset() =~= v@.take(i as int).to_multiset().insert(x));
        }
        out.insert(pos, x);
        proof {
            assert(out@ == old_out.insert(pos as int, x));
            assert forall|a: int, b: int| 0 <= a < b < out@.len() implies #[trigger] out@[a]
                <= #[trigger] out@[b] by {
                if a < pos && b == pos {
                    assert(old_out[a] <= old_out[pos - 1] || a == pos - 1);
                }
                if a < pos && b > pos {
                    assert(old_out[a] <= old_out[b - 1]);
                }
                if a > pos {
                    assert(old_out[a - 1] <= old_out[b - 1]);
                }
                if a < pos && b < pos {
                    assert(old_out[a] <= old_out[b]);
                }
            }
        }
        i = i + 1;
    }
    proof {
        assert(v@.take(v@.len() as int) =~= v@);
        let leq = |a: i64, b: i64| le_i64(a, b);
        lemma_le_i64_total();
        assert(sorted_by(out@, leq));
        v@.lemma_sort_by_ensures(leq);
        lemma_sorted_unique(out@, v@.sort_by(leq), leq);
    }
    out
}

/// `out` is `src` rearranged by the index map `p`, ascending in `key`,
/// with items of equal key in their original order.
pub open spec fn is_stable_sort(src: Seq<CardRow>, out: Seq<CardRow>, key: spec_fn(CardRow) -> int, p: Seq<int>) -> bool {
    &&& p.len() == src.len()
    &&& out.len() == src.len()
    &&& forall|i: int| 0 <= i < p.len() ==> 0 <= #[trigger] p[i] < src.len()
    &&& forall|i: int, j: int| 0 <= i < j < p.len() ==> #[trigger] p[i] != #[trigger] p[j]
    &&& forall|i: int| 0 <= i < p.len() ==> #[trigger] out[i] == src[p[i]]
    &&& forall|i: int, j: int| 0 <= i < j < out.len() ==> key(#[trigger] out[i]) <= key(#[trigger] out[j])
    &&& forall|i: int, j: int|
        0 <= i < j < p.len() && key(out[i]) == key(out[j]) ==> #[trigger] p[i] < #[trigger] p[j]
    &&& out.to_multiset() == src.to_multiset()
}

/// A sort key of three unsigned parts, compared part by part.
pub type Key3 = (u64, u64, u64);

/// The integer that orders keys as they compare part by part.
pub open spec fn key_value(k: Key3) -> int {
    k.0 as int * 0x1_0000_0000_0000_0000_0000_0000_0000_0000 + k.1 as int * 0x1_0000_0000_0000_0000 + k.2 as int
}

/// `a` sorts after `b`.
pub fn key_after(a: &Key3, b: &Key3) -> (r: bool)
    ensures
        r == (key_value(*a) > key_value(*b)),
{
    if a.0 != b.0 {
        a.0 > b.0
    } else if a.1 != b.1 {
        a.1 > b.1
    } else {
        a.2 > b.2
    }
}

/// Sorts cards stably by precomputed keys (`keys[i]` is the key of
/// `items[i]`).
pub fn stable_sort_cards(items: Vec<CardRow>, keys: Vec<Key3>, key: Ghost<spec_fn(CardRow) -> int>) -> (r: Vec<CardRow>)
    requires
        keys@.len() == items@.len(),
        forall|i: int| 0 <= i < items@.len() ==> key_value(keys@[i]) == (key@)(#[trigger] items@[i]),
    ensures
        exists|p: Seq<int>| is_stable_sort(items@, r@, key@, p),
{
    broadcast use vstd::seq_lib::group_to_multiset_ensures;
    let ghost orig = items@;
    let ghost okeys = keys@;
    let mut rest = items;
    let mut rest_keys = keys;
    let mut out: Vec<CardRow> = Vec::new();
    let mut out_keys: Vec<Key3> = Vec::new();
    let ghost mut p: Seq<int> = Seq::empty();
    let mut n: usize = 0;
    assert(orig.len() == rest.len());
    while rest.len() > 0
        invariant
            orig.len() <= usize::MAX,
            n + rest@.len() == orig.len(),
            rest@ == orig.skip(n as int),
            rest_keys@ == okeys.skip(n as int),
            okeys.len() == orig.len(),
            forall|i: int| 0 <= i < orig.len() ==> key_value(okeys[i]) == (key@)(#[trigger] orig[i]),
            out@.len() == n,
            out_keys@.len() == n,
            p.len() == n,
            forall|i: int| 0 <= i < n ==> key_value(out_keys@[i]) == (key@)(#[trigger] out@[i]),
            forall|i: int, j: int|
                0 <= i < j < n ==> key_value(#[trigger] out_keys@[i]) <= key_value(#[trigger] out_keys@[j]),
            forall|i: int| 0 <= i < n ==> 0 <= #[trigger] p[i] < n,
            forall|i: int, j: int| 0 <= i < j < n ==> #[trigger] p[i] != #[trigger] p[j],
            forall|i: int| 0 <= i < n ==> #[trigger] out@[i] == orig[p[i]],
            forall|i: int, j: int|
                0 <= i < j < n && key_value(#[trigger] out_keys@[i]) == key_value(#[trigger] out_keys@[j])
                    ==> p[i] < p[j],
            out@.to_multiset() == orig.take(n as int).to_multiset(),
        decreases rest@.len(),
    {
        let c = rest.remove(0);
        let k = rest_keys.remove(0);
        assert(c == orig[n as int]);
        assert(k == okeys[n as int]);
        let mut pos: usize = out.len();
        while pos > 0 && key_after(&out_keys[pos - 1], &k)
            invariant
                pos <= out@.len(),
                out@.len() == out_keys@.len(),
                forall|i: int| pos <= i < out_keys@.len() ==> key_value(#[trigger] out_keys@[i]) > key_value(k),
            decreases pos,
        {
            pos = pos - 1;
        }
        proof {
            let old_p = p;
            p = old_p.insert(pos as int, n as int);
            assert(orig.take(n + 1) =~= orig.take(n as int).push(c));
        }
        let ghost old_out = out@;
        out.insert(pos, c);
        proof {
            assert(out@ == old_out.insert(pos as int, c));
            vstd::seq_lib::to_multiset_insert(old_out, pos as int, c);
            vstd::seq_lib::to_multiset_build(orig.take(n as int), c);
        }
        out_keys.insert(pos, k);
        n = n + 1;
        proof {
            assert(rest@ =~= orig.skip(n as int));
            assert(rest_keys@ =~= okeys.skip(n as int));
        }
    }
    proof {
        assert forall|i: int, j: int|
            0 <= i < j < out@.len() implies (key@)(#[trigger] out@[i]) <= (key@)(#[trigger] out@[j]) by {
            assert(key_value(out_keys@[i]) <= key_value(out_keys@[j]));
        }
        assert forall|i: int, j: int|
            0 <= i < j < p.len() && (key@)(out@[i]) == (key@)(out@[j]) implies #[trigger] p[i]
            < #[trigger] p[j] by {
            assert(key_value(out_keys@[i]) == key_value(out_keys@[j]));
        }
        assert(orig.take(orig.len() as int) =~= orig);
        assert(is_stable_sort(orig, out@, key@, p));
    }
    out
}

/// `a` comes before `b`, or equals it, in dictionary order of characters
/// (the order `String` compares in, since UTF-8 keeps code point order).
pub open spec fn lex_le(a: Seq<char>, b: Seq<char>) -> bool
    decreases a.len(),
{
    if a.len() == 0 {
        true
    } else if b.len() == 0 {
        false
    } else if a[0] != b[0] {
        a[0] < b[0]
    } else {
        lex_le(a.drop_first(), b.drop_first())
    }
}

proof fn lemma_lex_refl(a: Seq<char>)
    ensures
        lex_le(a, a),
    decreases a.len(),
{
    if a.len() > 0 {
        lemma_lex_refl(a.drop_first());
    }
}

proof fn lemma_lex_antisym(a: Seq<char>, b: Seq<char>)
    requires
        lex_le(a, b),
        lex_le(b, a),
    ensures
        a == b,
    decreases a.len(),
{
    if a.len() == 0 || b.len() == 0 {
        assert(a.len() == 0 && b.len() == 0);
        assert(a =~= b);
    } else {
        assert(a[0] == b[0]);
        lemma_lex_antisym(a.drop_first(), b.drop_first());
        assert(a =~= seq![a[0]] + a.drop_first());
        assert(b =~= seq![b[0]] + b.drop_first());
    }
}

proof fn lemma_lex_trans(a: Seq<char>, b: Seq<char>, c: Seq<char>)
    requires
        lex_le(a, b),
        lex_le(b, c),
    ensures
        lex_le(a, c),
    decreases a.len(),
{
    if a.len() > 0 && b.len() > 0 && c.len() > 0 && a[0] == b[0] && b[0] == c[0] {
        lemma_lex_trans(a.drop_first(), b.drop_first(), c.drop_first());
    }
}

proof fn lemma_lex_total(a: Seq<char>, b: Seq<char>)
    ensures
        lex_le(a, b) || lex_le(b, a),
    decreases a.len(),
{
    if a.len() > 0 && b.len() > 0 && a[0] == b[0] {
        lemma_lex_total(a.drop_first(), b.drop_first());
    }
}

/// Dictionary order is a total order.
pub proof fn lemma_lex_total_ordering()
    ensures
        total_ordering(|a: Seq<char>, b: Seq<char>| lex_le(a, b)),
{
    let r = |a: Seq<char>, b: Seq<char>| lex_le(a, b);
    assert forall|x: Seq<char>| #[trigger] r(x, x) by {
        lemma_lex_refl(x);
    }
    assert forall|x: Seq<char>, y: Seq<char>| #[trigger] r(x, y) && #[trigger] r(y, x) implies x == y by {
        lemma_lex_antisym(x, y);
    }
    assert forall|x: Seq<char>, y: Seq<char>, z: Seq<char>| #[trigger] r(x, y) && #[trigger] r(y, z) implies r(
        x,
        z,
    ) by {
        lemma_lex_trans(x, y, z);
    }
    assert forall|x: Seq<char>, y: Seq<char>| #[trigger] r(x, y) || #[trigger] r(y, x) by {
        lemma_lex_total(x, y);
    }
}

pub fn lex_le_chars(a: &Vec<char>, b: &Vec<char>) -> (r: bool)
    ensures
        r == lex_le(a@, b@),
{
    let mut i: usize = 0;
    assert(a@.skip(0) =~= a@ && b@.skip(0) =~= b@);
    while i < a.len() && i < b.len() && a[i] == b[i]
        invariant
            i <= a@.len(),
            i <= b@.len(),
            lex_le(a@, b@) == lex_le(a@.skip(i as int), b@.skip(i as int)),
        decreases a@.len() - i,
    {
        assert(a@.skip(i as int).drop_first() =~= a@.skip(i + 1));
        assert(b@.skip(i as int).drop_first() =~= b@.skip(i + 1));
        i = i + 1;
    }
    if i == a.len() {
        true
    } else if i == b.len() {
        false
    } else {
        a[i] < b[i]
    }
}

pub open spec fn views_of(v: Seq<Vec<char>>) -> Seq<Seq<char>> {
    v.map_values(|x: Vec<char>| x@)
}

/// Strings in dictionary order (`slice::sort` on `String`s).
pub fn sort_texts(v: Vec<Vec<char>>) -> (r: Vec<Vec<char>>)
    ensures
        views_of(r@) == views_of(v@).sort_by(|a: Seq<char>, b: Seq<char>| lex_le(a, b)),
{
    broadcast use vstd::seq_lib::group_to_multiset_ensures;
    let ghost orig = views_of(v@);
    let ghost leq = |a: Seq<char>, b: Seq<char>| lex_le(a, b);
    let mut rest = v;
    let mut out: Vec<Vec<char>> = Vec::new();
    let mut n: usize = 0;
    proof {
        lemma_lex_total_ordering();
    }
    let len = rest.len();
    assert(orig.len() == len);
    while rest.len() > 0
        invariant
            total_ordering(leq),
            leq == (|a: Seq<char>, b: Seq<char>| lex_le(a, b)),
            orig.len() <= usize::MAX,
            n + rest@.len() == orig.len(),
            views_of(rest@) == orig.skip(n as int),
            forall|a: int, b: int| 0 <= a < b < out@.len() ==> lex_le(#[trigger] out@[a]@, #[trigger] out@[b]@),
            views_of(out@).to_multiset() == orig.take(n as int).to_multiset(),
        decreases rest@.len(),
    {
        let ghost old_rest = rest@;
        let x = rest.remove(0);
        let ghost xv = x@;
        assert(views_of(old_rest)[0] == old_rest[0]@);
        assert(xv == orig[n as int]);
        let mut pos: usize = out.len();
        while pos > 0 && !lex_le_chars(&out[pos - 1], &x)
            invariant
                pos <= out@.len(),
                xv == x@,
                forall|k: int| pos <= k < out@.len() ==> !lex_le(#[trigger] out@[k]@, xv),
            decreases pos,
        {
            pos = pos - 1;
        }
        let ghost old_out = out@;
        proof {
            lemma_insert_multiset_texts(views_of(out@), pos as int, xv);
            assert(views_of(old_out).insert(pos as int, xv) =~= views_of(old_out.insert(pos as int, x)));
            assert(orig.take(n + 1) =~= orig.take(n as int).push(xv));
            orig.take(n as int).to_multiset_ensures();
        }
        out.insert(pos, x);
        proof {
            assert(out@ == old_out.insert(pos as int, x));
            assert forall|a: int, b: int| 0 <= a < b < out@.len() implies lex_le(
                #[trigger] out@[a]@,
                #[trigger] out@[b]@,
            ) by {
                if a < pos && b == pos {
                    if a < pos - 1 {
                        assert(lex_le(old_out[a]@, old_out[pos - 1]@));
                        lemma_lex_trans(old_out[a]@, old_out[pos - 1]@, xv);
                    }
                }
                if a == pos && b > pos {
                    lemma_lex_total(old_out[b - 1]@, xv);
                }
                if a < pos && b > pos {
                    assert(lex_le(old_out[a]@, old_out[b - 1]@));
                }
                if a > pos {
                    assert(lex_le(old_out[a - 1]@, old_out[b - 1]@));
                }
                if a < pos && b < pos {
                    assert(lex_le(old_out[a]@, old_out[b]@));
                }
            }
        }
        n = n + 1;
        proof {
            assert forall|k: int| 0 <= k < rest@.len() implies #[trigger] views_of(rest@)[k] == orig.skip(
                n as int,
            )[k] by {
                assert(rest@[k] == old_rest[k + 1]);
                assert(views_of(old_rest)[k + 1] == old_rest[k + 1]@);
            }
            assert(views_of(rest@) =~= orig.skip(n as int));
        }
    }
    proof {
        assert(orig.take(orig.len() as int) =~= orig);
        assert(sorted_by(views_of(out@), leq));
        orig.lemma_sort_by_ensures(leq);
        lemma_sorted_unique(views_of(out@), orig.sort_by(leq), leq);
    }
    out
}

proof fn lemma_insert_multiset_texts(s: Seq<Seq<char>>, pos: int, x: Seq<char>)
    requires
        0 <= pos <= s.len(),
    ensures
        s.insert(pos, x).to_multiset() =~= s.to_multiset().insert(x),
{
    broadcast use vstd::seq_lib::group_to_multiset_ensures;
    broadcast use vstd::multiset::group_multiset_axioms;
    let a = s.take(pos);
    let b = s.skip(pos);
    assert(s =~= a + b);
    assert(s.insert(pos, x) =~= a + (seq![x] + b));
    vstd::seq_lib::lemma_multiset_commutative(a, seq![x] + b);
    vstd::seq_lib::lemma_multiset_commutative(seq![x], b);
    vstd::seq_lib::lemma_multiset_commutative(a, b);
}

} // verus!
