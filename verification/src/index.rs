//! Index normalization.
//!
//! Every write of the index first sorts the entries by identifier, ascending,
//! and drops duplicate identifiers, keeping the earliest entry for each. The
//! persisted index is therefore always strictly identifier-sorted and
//! duplicate-free, whatever order the caller handed the entries in.

use vstd::prelude::*;
use vstd::string::StrSliceExecFns;

use crate::types::IndexItem;
use crate::types::ItemModel;

verus! {

/// Strict lexicographic order on character sequences, by code point.
pub open spec fn lex_lt(a: Seq<char>, b: Seq<char>) -> bool
    decreases a.len(),
{
    if b.len() == 0 {
        false
    } else if a.len() == 0 {
        true
    } else if (a[0] as u32) < (b[0] as u32) {
        true
    } else if (a[0] as u32) > (b[0] as u32) {
        false
    } else {
        lex_lt(a.drop_first(), b.drop_first())
    }
}

/// Characters with the same code point are the same character.
proof fn lemma_char_eq(c: char, d: char)
    requires
        c as u32 == d as u32,
    ensures
        c == d,
{
}

/// The order is irreflexive.
pub proof fn lemma_lex_irrefl(a: Seq<char>)
    ensures
        !lex_lt(a, a),
    decreases a.len(),
{
    if a.len() > 0 {
        lemma_lex_irrefl(a.drop_first());
    }
}

/// Two sequences that neither order below the other are equal.
pub proof fn lemma_lex_connected(a: Seq<char>, b: Seq<char>)
    requires
        !lex_lt(a, b),
        !lex_lt(b, a),
    ensures
        a == b,
    decreases a.len(),
{
    if a.len() == 0 || b.len() == 0 {
        assert(a =~= b);
    } else {
        assert(a[0] as u32 == b[0] as u32);
        lemma_char_eq(a[0], b[0]);
        lemma_lex_connected(a.drop_first(), b.drop_first());
        assert(a.drop_first() == b.drop_first());
        assert(a.drop_first().len() == a.len() - 1);
        assert(b.drop_first().len() == b.len() - 1);
        assert(a.len() == b.len());
        assert forall|k: int| 0 <= k < a.len() implies a[k] == b[k] by {
            if k > 0 {
                assert(a[k] == a.drop_first()[k - 1]);
                assert(b[k] == b.drop_first()[k - 1]);
            }
        }
        assert(a =~= b);
    }
}

/// The order is transitive.
pub proof fn lemma_lex_trans(a: Seq<char>, b: Seq<char>, c: Seq<char>)
    requires
        lex_lt(a, b),
        lex_lt(b, c),
    ensures
        lex_lt(a, c),
    decreases a.len(),
{
    if a.len() == 0 {
    } else {
        if (a[0] as u32) == (b[0] as u32) && (b[0] as u32) == (c[0] as u32) {
            lemma_lex_trans(a.drop_first(), b.drop_first(), c.drop_first());
        }
    }
}

/// Compares two identifiers in the lexicographic order.
pub fn id_lt(a: &str, b: &str) -> (r: bool)
    ensures
        r == lex_lt(a@, b@),
{
    let na = a.unicode_len();
    let nb = b.unicode_len();
    let mut i: usize = 0;
    proof {
        assert(a@.skip(0) =~= a@);
        assert(b@.skip(0) =~= b@);
    }
    loop
        invariant
            na == a@.len(),
            nb == b@.len(),
            i <= na,
            i <= nb,
            lex_lt(a@, b@) == lex_lt(a@.skip(i as int), b@.skip(i as int)),
        decreases na - i,
    {
        if i >= nb {
            proof {
                assert(b@.skip(i as int).len() == 0);
            }
            return false;
        }
        if i >= na {
            proof {
                assert(a@.skip(i as int).len() == 0);
                assert(b@.skip(i as int).len() > 0);
            }
            return true;
        }
        let ca = a.get_char(i);
        let cb = b.get_char(i);
        proof {
            assert(a@.skip(i as int)[0] == a@[i as int]);
            assert(b@.skip(i as int)[0] == b@[i as int]);
            assert(a@.skip(i as int).drop_first() =~= a@.skip(i + 1));
            assert(b@.skip(i as int).drop_first() =~= b@.skip(i + 1));
        }
        if (ca as u32) < (cb as u32) {
            return true;
        }
        if (ca as u32) > (cb as u32) {
            return false;
        }
        i = i + 1;
    }
}

/// Whether some entry of `items` carries the identifier `id`.
pub open spec fn has_id(items: Seq<ItemModel>, id: Seq<char>) -> bool {
    exists|k: int| 0 <= k < items.len() && items[k].id == id
}

/// The first entry of `items` carrying the identifier `id`, if any.
pub open spec fn find_id(items: Seq<ItemModel>, id: Seq<char>) -> Option<ItemModel>
    decreases items.len(),
{
    if items.len() == 0 {
        None
    } else if items[0].id == id {
        Some(items[0])
    } else {
        find_id(items.drop_first(), id)
    }
}

/// Insertion of an entry into a sorted entry list, before the first entry
/// with a greater identifier.
pub open spec fn sorted_insert(sorted: Seq<ItemModel>, it: ItemModel) -> Seq<ItemModel>
    decreases sorted.len(),
{
    if sorted.len() == 0 {
        seq![it]
    } else if lex_lt(it.id, sorted[0].id) {
        seq![it] + sorted
    } else {
        seq![sorted[0]] + sorted_insert(sorted.drop_first(), it)
    }
}

/// The normalized form of an entry list: sorted by identifier, one entry per
/// identifier, the earliest entry for each identifier winning.
pub open spec fn normalize(items: Seq<ItemModel>) -> Seq<ItemModel>
    decreases items.len(),
{
    if items.len() == 0 {
        Seq::empty()
    } else {
        let rest = normalize(items.drop_last());
        if has_id(rest, items.last().id) {
            rest
        } else {
            sorted_insert(rest, items.last())
        }
    }
}

/// Entries strictly ordered by identifier.
pub open spec fn strict_sorted(items: Seq<ItemModel>) -> bool {
    forall|i: int, j: int| 0 <= i < j < items.len() ==> lex_lt(items[i].id, items[j].id)
}

/// What insertion does: the result is sorted, holds the new entry, and keeps
/// every old entry.
pub proof fn lemma_sorted_insert(sorted: Seq<ItemModel>, it: ItemModel)
    requires
        strict_sorted(sorted),
        !has_id(sorted, it.id),
    ensures
        strict_sorted(sorted_insert(sorted, it)),
        forall|x: Seq<char>|
            has_id(sorted_insert(sorted, it), x) == (has_id(sorted, x) || x == it.id),
        find_id(sorted_insert(sorted, it), it.id) == Some(it),
        forall|x: Seq<char>|
            x != it.id ==> find_id(sorted_insert(sorted, it), x) == find_id(sorted, x),
    decreases sorted.len(),
{
    let res = sorted_insert(sorted, it);
    if sorted.len() == 0 {
        assert(res =~= seq![it]);
        assert(res.drop_first() =~= Seq::<ItemModel>::empty());
        assert forall|x: Seq<char>| has_id(res, x) == (has_id(sorted, x) || x == it.id) by {
            if has_id(res, x) {
                assert(res[0].id == x || has_id(sorted, x));
            }
            if x == it.id {
                assert(res[0].id == x);
            }
        }
        assert(find_id(res, it.id) == Some(it));
        assert forall|x: Seq<char>| x != it.id implies find_id(res, x) == find_id(sorted, x) by {
            assert(find_id(res, x) == find_id(res.drop_first(), x));
        }
    } else if lex_lt(it.id, sorted[0].id) {
        assert(res == seq![it] + sorted);
        assert(res[0] == it);
        assert(forall|k: int| 0 <= k < sorted.len() ==> res[k + 1] == sorted[k]);
        assert(strict_sorted(res)) by {
            assert forall|i: int, j: int| 0 <= i < j < res.len() implies lex_lt(
                res[i].id,
                res[j].id,
            ) by {
                if i == 0 {
                    if j > 1 {
                        lemma_lex_trans(it.id, sorted[0].id, sorted[j - 1].id);
                    }
                }
            }
        }
        assert forall|x: Seq<char>| has_id(res, x) == (has_id(sorted, x) || x == it.id) by {
            if has_id(res, x) {
                let k = choose|k: int| 0 <= k < res.len() && res[k].id == x;
                if k == 0 {
                } else {
                    assert(sorted[k - 1].id == x);
                }
            }
            if has_id(sorted, x) {
                let k = choose|k: int| 0 <= k < sorted.len() && sorted[k].id == x;
                assert(res[k + 1].id == x);
            }
            if x == it.id {
                assert(res[0].id == x);
            }
        }
        assert(find_id(res, it.id) == Some(it)) by {
            assert(res[0] == it);
        }
        assert forall|x: Seq<char>| x != it.id implies find_id(res, x) == find_id(sorted, x) by {
            assert(res.drop_first() =~= sorted);
        }
    } else {
        let h = sorted[0];
        let tail = sorted.drop_first();
        assert(!has_id(tail, it.id)) by {
            if has_id(tail, it.id) {
                let k = choose|k: int| 0 <= k < tail.len() && tail[k].id == it.id;
                assert(sorted[k + 1].id == it.id);
            }
        }
        assert(strict_sorted(tail)) by {
            assert forall|i: int, j: int| 0 <= i < j < tail.len() implies lex_lt(
                tail[i].id,
                tail[j].id,
            ) by {
                assert(tail[i] == sorted[i + 1]);
                assert(tail[j] == sorted[j + 1]);
            }
        }
        lemma_sorted_insert(tail, it);
        let sub = sorted_insert(tail, it);
        assert(res == seq![h] + sub);
        assert(res[0] == h);
        assert(forall|k: int| 0 <= k < sub.len() ==> res[k + 1] == sub[k]);
        assert(h.id != it.id) by {
            assert(sorted[0].id == h.id);
        }
        assert(lex_lt(h.id, it.id)) by {
            if !lex_lt(h.id, it.id) {
                lemma_lex_connected(it.id, h.id);
            }
        }
        assert(strict_sorted(res)) by {
            assert forall|i: int, j: int| 0 <= i < j < res.len() implies lex_lt(
                res[i].id,
                res[j].id,
            ) by {
                if i == 0 {
                    let y = sub[j - 1];
                    assert(has_id(sub, y.id)) by {
                        assert(sub[j - 1].id == y.id);
                    }
                    if y.id == it.id {
                        assert(lex_lt(h.id, it.id));
                        assert(y == sub[j - 1]);
                    } else {
                        assert(has_id(tail, y.id));
                        let k = choose|k: int| 0 <= k < tail.len() && tail[k].id == y.id;
                        assert(sorted[k + 1].id == y.id);
                        assert(lex_lt(sorted[0].id, sorted[k + 1].id));
                    }
                    assert(lex_lt(h.id, res[j].id));
                }
            }
        }
        assert forall|x: Seq<char>| has_id(res, x) == (has_id(sorted, x) || x == it.id) by {
            if has_id(res, x) {
                let k = choose|k: int| 0 <= k < res.len() && res[k].id == x;
                if k == 0 {
                    assert(sorted[0].id == x);
                } else {
                    assert(has_id(sub, x)) by {
                        assert(sub[k - 1].id == x);
                    }
                    if x != it.id {
                        assert(has_id(tail, x));
                        let m = choose|m: int| 0 <= m < tail.len() && tail[m].id == x;
                        assert(sorted[m + 1].id == x);
                    }
                }
            }
            if has_id(sorted, x) {
                let k = choose|k: int| 0 <= k < sorted.len() && sorted[k].id == x;
                if k == 0 {
                    assert(res[0].id == x);
                } else {
                    assert(tail[k - 1].id == x);
                    assert(has_id(tail, x));
                    assert(has_id(sorted_insert(tail, it), x));
                    let m = choose|m: int| 0 <= m < sub.len() && sub[m].id == x;
                    assert(res[m + 1].id == x);
                }
            }
            if x == it.id {
                assert(has_id(sorted_insert(tail, it), x));
                let m = choose|m: int| 0 <= m < sub.len() && sub[m].id == x;
                assert(res[m + 1].id == x);
            }
        }
        assert(res.drop_first() =~= sub);
        assert(find_id(res, it.id) == Some(it));
        assert forall|x: Seq<char>| x != it.id implies find_id(res, x) == find_id(sorted, x) by {
            assert(find_id(sorted_insert(tail, it), x) == find_id(tail, x));
            assert(res.drop_first() =~= sub);
            assert(sorted.drop_first() =~= tail);
            if res[0].id == x {
                assert(find_id(res, x) == Some(h));
                assert(find_id(sorted, x) == Some(h));
            } else {
                assert(find_id(res, x) == find_id(sub, x));
                assert(find_id(sorted, x) == find_id(tail, x));
            }
        }
    }
}

/// What normalization does: the result is strictly sorted, has exactly the
/// identifiers of the input, and keeps, for each identifier, its first entry.
pub proof fn lemma_normalize(items: Seq<ItemModel>)
    ensures
        strict_sorted(normalize(items)),
        forall|x: Seq<char>| has_id(normalize(items), x) == has_id(items, x),
        forall|x: Seq<char>|
            #[trigger] find_id(normalize(items), x) is Some ==> has_id(items, x),
    decreases items.len(),
{
    if items.len() == 0 {
    } else {
        let rest = normalize(items.drop_last());
        lemma_normalize(items.drop_last());
        assert forall|x: Seq<char>| has_id(items.drop_last(), x) || x == items.last().id
            implies has_id(items, x) by {
            if has_id(items.drop_last(), x) {
                let k = choose|k: int|
                    0 <= k < items.drop_last().len() && items.drop_last()[k].id == x;
                assert(items[k].id == x);
            } else {
                assert(items.last().id == x);
            }
        }
        assert forall|x: Seq<char>| has_id(items, x) implies (has_id(items.drop_last(), x) || x
            == items.last().id) by {
            let k = choose|k: int| 0 <= k < items.len() && items[k].id == x;
            if k < items.len() - 1 {
                assert(items.drop_last()[k].id == x);
            }
        }
        if has_id(rest, items.last().id) {
        } else {
            lemma_sorted_insert(rest, items.last());
            assert forall|x: Seq<char>|
                #[trigger] find_id(normalize(items), x) is Some implies has_id(items, x) by {
                if x == items.last().id {
                } else {
                    assert(find_id(normalize(items), x) == find_id(rest, x));
                    if find_id(rest, x) is Some {
                        lemma_find_id_has(rest, x);
                    }
                }
            }
        }
    }
}

/// A found entry means the identifier occurs at some position, and the
/// other way round.
pub proof fn lemma_find_id_has(items: Seq<ItemModel>, x: Seq<char>)
    ensures
        find_id(items, x) is Some <==> has_id(items, x),
        find_id(items, x) matches Some(it) ==> it.id == x && exists|k: int|
            0 <= k < items.len() && items[k] == it,
    decreases items.len(),
{
    if items.len() == 0 {
    } else if items[0].id == x {
        assert(items[0] == find_id(items, x).unwrap());
    } else {
        lemma_find_id_has(items.drop_first(), x);
        if has_id(items, x) {
            let k = choose|k: int| 0 <= k < items.len() && items[k].id == x;
            assert(items.drop_first()[k - 1].id == x);
        }
        if has_id(items.drop_first(), x) {
            let k = choose|k: int|
                0 <= k < items.drop_first().len() && items.drop_first()[k].id == x;
            assert(items[k + 1].id == x);
        }
        if find_id(items, x) is Some {
            let it = find_id(items, x).unwrap();
            let k = choose|k: int|
                0 <= k < items.drop_first().len() && items.drop_first()[k] == it;
            assert(items[k + 1] == it);
        }
    }
}

/// Appending an entry changes a first-match lookup only where nothing
/// matched before.
proof fn lemma_find_id_push(items: Seq<ItemModel>, e: ItemModel, x: Seq<char>)
    ensures
        find_id(items.push(e), x) == match find_id(items, x) {
            Some(it) => Some(it),
            None => if e.id == x {
                Some(e)
            } else {
                None
            },
        },
    decreases items.len(),
{
    if items.len() == 0 {
        assert(items.push(e)[0] == e);
        assert(items.push(e).drop_first() =~= Seq::<ItemModel>::empty());
    } else {
        assert(items.push(e)[0] == items[0]);
        assert(items.push(e).drop_first() =~= items.drop_first().push(e));
        lemma_find_id_push(items.drop_first(), e, x);
    }
}

/// Normalization keeps, for each identifier, its first entry: a lookup in
/// the normalized list agrees with a first-match lookup in the input, so the
/// entries dropped are exactly the later duplicates.
pub proof fn lemma_normalize_keeps_first(items: Seq<ItemModel>)
    ensures
        forall|x: Seq<char>| #![trigger find_id(normalize(items), x)]
            find_id(normalize(items), x) == find_id(items, x),
    decreases items.len(),
{
    if items.len() == 0 {
    } else {
        let front = items.drop_last();
        let last = items.last();
        let rest = normalize(front);
        lemma_normalize_keeps_first(front);
        lemma_normalize(front);
        assert(items =~= front.push(last));
        if has_id(rest, last.id) {
            assert forall|x: Seq<char>| #![trigger find_id(normalize(items), x)]
                find_id(normalize(items), x) == find_id(items, x) by {
                lemma_find_id_push(front, last, x);
                if x == last.id {
                    lemma_find_id_has(front, x);
                    assert(has_id(front, x));
                }
            }
        } else {
            lemma_sorted_insert(rest, last);
            assert forall|x: Seq<char>| #![trigger find_id(normalize(items), x)]
                find_id(normalize(items), x) == find_id(items, x) by {
                lemma_find_id_push(front, last, x);
                if x == last.id {
                    lemma_find_id_has(front, x);
                    assert(!has_id(front, x));
                    assert(find_id(normalize(items), x) == Some(last));
                } else {
                    assert(find_id(sorted_insert(rest, last), x) == find_id(rest, x));
                }
            }
        }
    }
}

/// Normalizing what is already sorted and duplicate-free changes nothing, so
/// a second write of the same entries persists identical text.
pub proof fn lemma_normalize_sorted(items: Seq<ItemModel>)
    requires
        strict_sorted(items),
    ensures
        normalize(items) == items,
    decreases items.len(),
{
    if items.len() == 0 {
        assert(normalize(items) =~= items);
    } else {
        let front = items.drop_last();
        let last = items.last();
        assert(strict_sorted(front)) by {
            assert(forall|k: int| 0 <= k < front.len() ==> front[k] == items[k]);
        }
        lemma_normalize_sorted(front);
        assert(!has_id(front, last.id)) by {
            if has_id(front, last.id) {
                let k = choose|k: int| 0 <= k < front.len() && front[k].id == last.id;
                assert(lex_lt(items[k].id, items[items.len() - 1].id));
                lemma_lex_irrefl(last.id);
            }
        }
        lemma_insert_at_end(front, last);
        assert(normalize(items) == sorted_insert(front, last));
        assert(front.push(last) =~= items);
    }
}

/// Inserting an entry greater than everything in a sorted list appends it.
proof fn lemma_insert_at_end(sorted: Seq<ItemModel>, it: ItemModel)
    requires
        forall|k: int| 0 <= k < sorted.len() ==> lex_lt(sorted[k].id, it.id),
    ensures
        sorted_insert(sorted, it) == sorted.push(it),
    decreases sorted.len(),
{
    if sorted.len() == 0 {
        assert(sorted_insert(sorted, it) =~= sorted.push(it));
    } else {
        assert(!lex_lt(it.id, sorted[0].id)) by {
            if lex_lt(it.id, sorted[0].id) {
                lemma_lex_trans(it.id, sorted[0].id, it.id);
                lemma_lex_irrefl(it.id);
            }
        }
        assert(forall|k: int|
            0 <= k < sorted.drop_first().len() ==> lex_lt(sorted.drop_first()[k].id, it.id));
        lemma_insert_at_end(sorted.drop_first(), it);
        assert(sorted_insert(sorted, it) =~= sorted.push(it));
    }
}

/// Normalization twice is normalization once.
pub proof fn lemma_normalize_idempotent(items: Seq<ItemModel>)
    ensures
        normalize(normalize(items)) == normalize(items),
{
    lemma_normalize(items);
    lemma_normalize_sorted(normalize(items));
}

/// Sorts and deduplicates index entries by identifier: the entries come out
/// strictly identifier-sorted, the earliest entry winning for each
/// identifier.
pub fn normalize_items(items: Vec<IndexItem>) -> (r: Vec<IndexItem>)
    ensures
        r.deep_view() == normalize(items.deep_view()),
{
    let n = items.len();
    let mut acc: Vec<IndexItem> = Vec::new();
    proof {
        assert(items.deep_view().take(0) =~= Seq::<ItemModel>::empty());
        assert(acc.deep_view() =~= Seq::<ItemModel>::empty());
    }
    let mut i: usize = 0;
    while i < n
        invariant
            n == items@.len(),
            i <= n,
            items.deep_view().len() == items@.len(),
            forall|k: int| 0 <= k < items@.len() ==> items.deep_view()[k] == items@[k]@,
            acc.deep_view() == normalize(items.deep_view().take(i as int)),
            strict_sorted(acc.deep_view()),
        decreases n - i,
    {
        let it = IndexItem { id: items[i].id.clone(), label: items[i].label.clone() };
        proof {
            assert(it@ == items.deep_view()[i as int]);
            assert(items.deep_view().take(i + 1).drop_last() =~= items.deep_view().take(
                i as int,
            ));
            assert(items.deep_view().take(i + 1).last() == items.deep_view()[i as int]);
            lemma_normalize(items.deep_view().take(i as int));
        }
        let dup = contains_id(&acc, it.id.as_str());
        if !dup {
            proof {
                lemma_sorted_insert(acc.deep_view(), it@);
            }
            let inserted = insert_sorted(acc, it);
            acc = inserted;
        }
        i = i + 1;
    }
    proof {
        assert(items.deep_view().take(n as int) =~= items.deep_view());
    }
    acc
}

/// Whether some entry of `items` carries the identifier `id`.
pub fn contains_id(items: &Vec<IndexItem>, id: &str) -> (r: bool)
    ensures
        r == has_id(items.deep_view(), id@),
{
    let n = items.len();
    let mut i: usize = 0;
    while i < n
        invariant
            n == items@.len(),
            i <= n,
            items.deep_view().len() == items@.len(),
            forall|k: int| 0 <= k < items@.len() ==> items.deep_view()[k] == items@[k]@,
            forall|k: int| 0 <= k < i ==> items.deep_view()[k].id != id@,
        decreases n - i,
    {
        if str_eq(items[i].id.as_str(), id) {
            proof {
                assert(items.deep_view()[i as int].id == id@);
            }
            return true;
        }
        i = i + 1;
    }
    false
}

/// Whether two string slices hold the same characters.
pub(crate) fn str_eq(a: &str, b: &str) -> (r: bool)
    ensures
        r == (a@ == b@),
{
    let na = a.unicode_len();
    let nb = b.unicode_len();
    if na != nb {
        proof {
            assert(a@ != b@);
        }
        return false;
    }
    let mut i: usize = 0;
    while i < na
        invariant
            na == a@.len(),
            na == b@.len(),
            i <= na,
            forall|k: int| 0 <= k < i ==> a@[k] == b@[k],
        decreases na - i,
    {
        if a.get_char(i) != b.get_char(i) {
            return false;
        }
        i = i + 1;
    }
    proof {
        assert(a@ =~= b@);
    }
    true
}

/// Inserts an entry into a sorted vector, before the first greater
/// identifier.
fn insert_sorted(sorted: Vec<IndexItem>, it: IndexItem) -> (r: Vec<IndexItem>)
    ensures
        r.deep_view() == sorted_insert(sorted.deep_view(), it@),
    decreases sorted@.len(),
{
    let ghost s0 = sorted.deep_view();
    let mut sorted = sorted;
    if sorted.len() == 0 {
        let mut v: Vec<IndexItem> = Vec::new();
        v.push(it);
        proof {
            assert(v.deep_view() =~= seq![it@]);
        }
        v
    } else if id_lt(it.id.as_str(), sorted[0].id.as_str()) {
        proof {
            assert(s0[0] == sorted@[0]@);
        }
        sorted.insert(0, it);
        proof {
            assert(sorted.deep_view() =~= seq![it@] + s0);
        }
        sorted
    } else {
        proof {
            assert(s0[0] == sorted@[0]@);
        }
        let head = sorted.remove(0);
        let ghost tail0 = sorted.deep_view();
        proof {
            assert(tail0 =~= s0.drop_first());
        }
        let mut rest = insert_sorted(sorted, it);
        rest.insert(0, head);
        proof {
            assert(rest.deep_view() =~= seq![head@] + sorted_insert(tail0, it@));
        }
        rest
    }
}

} // verus!
