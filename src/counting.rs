use vstd::prelude::*;
use crate::triplets::CoreError;
use crate::ranking::{
    span_ok,
    entry_text,

    Triplet,
    Top3Triplets,
    sentinel,
    beats,
    rank_all,
    empty_top3,
    ordered,
    lemma_rank_all,
    find_top3triplets_from_hashmap,
    lemma_rank_members,
    lemma_rank_keeps,
    lemma_rank_distinct,
    distinct_by,
    occurs,
    podium,
};

verus! {

/// How often `x` occurs in `s`.
pub open spec fn occ(s: Seq<Seq<u8>>, x: Seq<u8>) -> nat
    decreases s.len(),
{
    if s.len() == 0 {
        0
    } else {
        occ(s.drop_last(), x) + if s.last() == x {
            1nat
        } else {
            0nat
        }
    }
}

/// The bytes a span covers.
pub open spec fn text_at(bytes: Seq<u8>, sp: (usize, usize)) -> Seq<u8> {
    bytes.subrange(sp.0 as int, sp.1 as int)
}

/// Every span lies within the buffer and is non-empty.
pub open spec fn spans_valid(bytes: Seq<u8>, trips: Seq<(usize, usize)>) -> bool {
    forall|i: int| 0 <= i < trips.len() ==> (#[trigger] trips[i]).0 < trips[i].1 <= bytes.len()
}

/// The texts of the triplets named by `items`, in order.
pub open spec fn texts_of(bytes: Seq<u8>, trips: Seq<(usize, usize)>, items: Seq<usize>) -> Seq<
    Seq<u8>,
> {
    Seq::new(items.len(), |k: int| text_at(bytes, trips[items[k] as int]))
}

/// An entry is the empty sentinel, or a text of `texts` with its exact number of occurrences.
pub open spec fn counted(bytes: Seq<u8>, texts: Seq<Seq<u8>>, e: Triplet) -> bool {
    e == sentinel() || (e.start < e.end <= bytes.len() && e.count >= 1 && e.count == occ(
        texts,
        entry_text(bytes, e),
    ))
}

/// The text of each entry.
pub open spec fn text_fn(bytes: Seq<u8>) -> spec_fn(Triplet) -> Seq<u8> {
    |e: Triplet| entry_text(bytes, e)
}

/// A real entry of the podium holds the text `x`.
pub open spec fn on_podium(bytes: Seq<u8>, t: Top3Triplets, x: Seq<u8>) -> bool {
    ||| (occurs(t.gold) && entry_text(bytes, t.gold) == x)
    ||| (occurs(t.silver) && entry_text(bytes, t.silver) == x)
    ||| (occurs(t.bronze) && entry_text(bytes, t.bronze) == x)
}

/// Some entry of `es` holds the text `x`.
pub open spec fn has_entry(bytes: Seq<u8>, es: Seq<Triplet>, x: Seq<u8>) -> bool {
    exists|j: int| 0 <= j < es.len() && #[trigger] entry_text(bytes, es[j]) == x
}

pub proof fn lemma_occ_le_len(s: Seq<Seq<u8>>, x: Seq<u8>)
    ensures
        occ(s, x) <= s.len(),
    decreases s.len(),
{
    if s.len() > 0 {
        lemma_occ_le_len(s.drop_last(), x);
    }
}

pub proof fn lemma_occ_exists(s: Seq<Seq<u8>>, x: Seq<u8>)
    requires
        occ(s, x) > 0,
    ensures
        exists|k: int| 0 <= k < s.len() && s[k] == x,
    decreases s.len(),
{
    if s.last() != x {
        lemma_occ_exists(s.drop_last(), x);
        let k = choose|k: int| 0 <= k < s.drop_last().len() && s.drop_last()[k] == x;
        assert(s[k] == x);
    }
}

pub proof fn lemma_occ_prefix(s: Seq<Seq<u8>>, x: Seq<u8>, m: int)
    requires
        0 <= m <= s.len(),
    ensures
        occ(s.take(m), x) <= occ(s, x),
        m > 0 && s[m - 1] == x ==> occ(s, x) >= 1,
    decreases s.len() - m,
{
    if m < s.len() {
        lemma_occ_prefix(s, x, m + 1);
        assert(s.take(m + 1).drop_last() =~= s.take(m));
    } else {
        assert(s.take(m) =~= s);
    }
    if m > 0 && s[m - 1] == x {
        assert(s.take(m).drop_last() =~= s.take(m - 1));
        assert(s.take(m).last() == x);
    }
}

/// No earlier position of `texts` holds the text at `k`.
pub open spec fn first_at(texts: Seq<Seq<u8>>, k: int) -> bool {
    forall|m: int| 0 <= m < k ==> texts[m] != texts[k]
}

/// `e` spans the triplet named at position `k` of `items`, the first
/// position holding its text.
pub open spec fn entry_at(
    bytes: Seq<u8>,
    trips: Seq<(usize, usize)>,
    items: Seq<usize>,
    e: Triplet,
    k: int,
) -> bool {
    &&& 0 <= k < items.len()
    &&& trips[items[k] as int].0 == e.start
    &&& trips[items[k] as int].1 == e.end
    &&& first_at(texts_of(bytes, trips, items), k)
}

/// `e` spans the first occurrence of its text among `items`.
pub open spec fn first_entry(bytes: Seq<u8>, trips: Seq<(usize, usize)>, items: Seq<usize>, e: Triplet) -> bool {
    exists|k: int| entry_at(bytes, trips, items, e, k)
}

/// The entry for the text at position `k` of `items`: its span there, and
/// its number of occurrences among `items`.
pub open spec fn bucket_entry(bytes: Seq<u8>, trips: Seq<(usize, usize)>, items: Seq<usize>, k: int) -> Triplet {
    Triplet {
        start: trips[items[k] as int].0,
        end: trips[items[k] as int].1,
        count: occ(texts_of(bytes, trips, items), texts_of(bytes, trips, items)[k]) as u32,
    }
}

/// Some text of `texts` occurs more often than a `u32` can count.
pub open spec fn overflows(texts: Seq<Seq<u8>>) -> bool {
    exists|k: int| 0 <= k < texts.len() && occ(texts, #[trigger] texts[k]) > u32::MAX
}

/// Whether two spans of the buffer hold the same bytes.
pub fn same_text(bytes: &Vec<u8>, a: (usize, usize), b: (usize, usize)) -> (r: bool)
    requires
        a.0 <= a.1 <= bytes@.len(),
        b.0 <= b.1 <= bytes@.len(),
    ensures
        r == (text_at(bytes@, a) == text_at(bytes@, b)),
{
    if a.1 - a.0 != b.1 - b.0 {
        assert(text_at(bytes@, a).len() != text_at(bytes@, b).len());
        return false;
    }
    let n = a.1 - a.0;
    let mut k: usize = 0;
    while k < n
        invariant
            n == a.1 - a.0,
            n == b.1 - b.0,
            a.0 <= a.1 <= bytes@.len(),
            b.0 <= b.1 <= bytes@.len(),
            0 <= k <= n,
            forall|j: int| 0 <= j < k ==> text_at(bytes@, a)[j] == #[trigger] text_at(bytes@, b)[j],
        decreases n - k,
    {
        if bytes[a.0 + k] != bytes[b.0 + k] {
            assert(text_at(bytes@, a)[k as int] != text_at(bytes@, b)[k as int]);
            return false;
        }
        k = k + 1;
    }
    assert(text_at(bytes@, a) =~= text_at(bytes@, b));
    true
}

/// Counts the exact occurrences of each distinct text among the triplets
/// named by `items`; entries come in order of first occurrence.
pub fn count_bucket(bytes: &Vec<u8>, trips: &Vec<(usize, usize)>, items: &Vec<usize>) -> (r: Result<
    Vec<Triplet>,
    CoreError,
>)
    requires
        spans_valid(bytes@, trips@),
        forall|k: int| 0 <= k < items@.len() ==> (#[trigger] items@[k]) < trips@.len(),
    ensures
        r is Err <==> overflows(texts_of(bytes@, trips@, items@)),
        r is Err ==> r == Err::<Vec<Triplet>, CoreError>(CoreError::Overflow),
        r is Ok ==> forall|j: int| 0 <= j < r->Ok_0@.len() ==> #[trigger] counted(bytes@, texts_of(bytes@, trips@, items@), r->Ok_0@[j]) && r->Ok_0@[j] != sentinel(),
        r is Ok ==> forall|k: int| 0 <= k < items@.len() ==> has_entry(bytes@, r->Ok_0@, #[trigger] texts_of(bytes@, trips@, items@)[k]),
        r is Ok ==> forall|j1: int, j2: int| 0 <= j1 < j2 < r->Ok_0@.len() ==> entry_text(bytes@, #[trigger] r->Ok_0@[j1]) != entry_text(bytes@, #[trigger] r->Ok_0@[j2]),
        r is Ok ==> forall|j: int| 0 <= j < r->Ok_0@.len() ==> first_entry(bytes@, trips@, items@, #[trigger] r->Ok_0@[j]),
{
    let ghost all = texts_of(bytes@, trips@, items@);
    let mut entries: Vec<Triplet> = Vec::new();
    let mut i: usize = 0;
    while i < items.len()
        invariant
            spans_valid(bytes@, trips@),
            forall|k: int| 0 <= k < items@.len() ==> (#[trigger] items@[k]) < trips@.len(),
            all == texts_of(bytes@, trips@, items@),
            0 <= i <= items@.len(),
            entries@.len() <= i,
            forall|j: int| 0 <= j < entries@.len() ==> #[trigger] counted(bytes@, all.take(i as int), entries@[j]) && entries@[j] != sentinel(),
            forall|k: int| 0 <= k < i ==> has_entry(bytes@, entries@, #[trigger] all[k]),
            forall|j1: int, j2: int| 0 <= j1 < j2 < entries@.len() ==> entry_text(bytes@, #[trigger] entries@[j1]) != entry_text(bytes@, #[trigger] entries@[j2]),
            forall|j: int| 0 <= j < entries@.len() ==> first_entry(bytes@, trips@, items@, #[trigger] entries@[j]),
        decreases items@.len() - i,
    {
        let sp = trips[items[i]];
        let ghost x = all[i as int];
        let ghost pre = all.take(i as int);
        let ghost post = all.take(i + 1);
        assert(post.drop_last() =~= pre);
        assert(post.last() == x);
        assert(x == text_at(bytes@, sp));
        proof {
            assert forall|m: int| 0 <= m < entries@.len() implies (#[trigger] entries@[m]).start
                < entries@[m].end <= bytes@.len() by {
                assert(counted(bytes@, pre, entries@[m]));
            }
        }
        let mut j: usize = 0;
        let mut found: bool = false;
        while j < entries.len() && !found
            invariant
                0 <= j <= entries@.len(),
                found ==> j < entries@.len() && entry_text(bytes@, entries@[j as int]) == x,
                !found ==> j <= entries@.len(),
                forall|m: int| 0 <= m < entries@.len() ==> (#[trigger] entries@[m]).start < entries@[m].end <= bytes@.len(),
                forall|m: int| 0 <= m < j ==> entry_text(bytes@, #[trigger] entries@[m]) != x,
                found ==> j < entries@.len(),
                sp.0 < sp.1 <= bytes@.len(),
                x == text_at(bytes@, sp),
            decreases entries@.len() - j + if found { 0int } else { 1int },
        {
            let e = entries[j];
            if same_text(bytes, (e.start, e.end), sp) {
                found = true;
            } else {
                j = j + 1;
            }
        }
        let ghost old_entries = entries@;
        if found {
            let e = entries[j];
            proof {
                assert(counted(bytes@, pre, old_entries[j as int]));
            }
            if e.count == u32::MAX {
                proof {
                    lemma_occ_prefix(all, x, i + 1);
                    assert(occ(all, all[i as int]) > u32::MAX);
                }
                return Err(CoreError::Overflow);
            }
            entries.set(j, Triplet { start: e.start, end: e.end, count: e.count + 1 });
            proof {
                assert forall|m: int| 0 <= m < entries@.len() implies #[trigger] counted(bytes@, post, entries@[m]) && entries@[m] != sentinel() by {
                    assert(counted(bytes@, pre, old_entries[m]));
                    if m != j {
                        assert(entry_text(bytes@, old_entries[m]) != entry_text(bytes@, old_entries[j as int]));
                    }
                    assert(entry_text(bytes@, entries@[m]) == entry_text(bytes@, old_entries[m]));
                }
                assert forall|k: int| 0 <= k < i + 1 implies has_entry(bytes@, entries@, #[trigger] all[k]) by {
                    if k < i {
                        assert(has_entry(bytes@, old_entries, all[k]));
                        let m = choose|m: int| 0 <= m < old_entries.len() && #[trigger] entry_text(bytes@, old_entries[m]) == all[k];
                        assert(entry_text(bytes@, entries@[m]) == all[k]);
                    } else {
                        assert(entry_text(bytes@, entries@[j as int]) == all[k]);
                    }
                }
                assert forall|m: int| 0 <= m < entries@.len() implies first_entry(bytes@, trips@, items@, #[trigger] entries@[m]) by {
                    assert(first_entry(bytes@, trips@, items@, old_entries[m]));
                    let k = choose|k: int| entry_at(bytes@, trips@, items@, old_entries[m], k);
                    assert(entry_at(bytes@, trips@, items@, entries@[m], k));
                }
            }
        } else {
            proof {
                if occ(pre, x) > 0 {
                    lemma_occ_exists(pre, x);
                    let k = choose|k: int| 0 <= k < pre.len() && pre[k] == x;
                    assert(all[k] == x);
                    assert(has_entry(bytes@, old_entries, all[k]));
                    let m = choose|m: int| 0 <= m < old_entries.len() && #[trigger] entry_text(bytes@, old_entries[m]) == all[k];
                    assert(false);
                }
            }
            proof {
                assert forall|m: int| 0 <= m < i implies all[m] != all[i as int] by {
                    if all[m] == x {
                        assert(pre[m] == x);
                        lemma_occ_prefix(pre, x, m + 1);
                    }
                }
                assert(first_at(all, i as int));
                assert(entry_at(bytes@, trips@, items@, Triplet { start: sp.0, end: sp.1, count: 1 }, i as int));
            }
            entries.push(Triplet { start: sp.0, end: sp.1, count: 1 });
            proof {
                assert forall|m: int| 0 <= m < entries@.len() implies first_entry(bytes@, trips@, items@, #[trigger] entries@[m]) by {
                    if m < old_entries.len() {
                        assert(entries@[m] == old_entries[m]);
                    } else {
                        assert(entry_at(bytes@, trips@, items@, entries@[m], i as int));
                    }
                }
                assert forall|m: int| 0 <= m < entries@.len() implies #[trigger] counted(bytes@, post, entries@[m]) && entries@[m] != sentinel() by {
                    if m < old_entries.len() {
                        assert(counted(bytes@, pre, old_entries[m]));
                        assert(entries@[m] == old_entries[m]);
                    } else {
                        assert(entry_text(bytes@, entries@[m]) == x);
                    }
                }
                assert forall|k: int| 0 <= k < i + 1 implies has_entry(bytes@, entries@, #[trigger] all[k]) by {
                    if k < i {
                        assert(has_entry(bytes@, old_entries, all[k]));
                        let m = choose|m: int| 0 <= m < old_entries.len() && #[trigger] entry_text(bytes@, old_entries[m]) == all[k];
                        assert(entries@[m] == old_entries[m]);
                    } else {
                        assert(entry_text(bytes@, entries@[old_entries.len() as int]) == all[k]);
                    }
                }
                assert forall|j1: int, j2: int| 0 <= j1 < j2 < entries@.len() implies entry_text(bytes@, #[trigger] entries@[j1]) != entry_text(bytes@, #[trigger] entries@[j2]) by {
                    if j2 < old_entries.len() {
                        assert(entries@[j1] == old_entries[j1] && entries@[j2] == old_entries[j2]);
                    } else {
                        assert(entries@[j1] == old_entries[j1]);
                        assert(entry_text(bytes@, entries@[j2]) == x);
                        assert(entry_text(bytes@, old_entries[j1]) != x);
                    }
                }
            }
        }
        i = i + 1;
    }
    assert(all.take(i as int) =~= all);
    proof {
        assert forall|k: int| 0 <= k < all.len() implies occ(all, #[trigger] all[k]) <= u32::MAX by {
            assert(has_entry(bytes@, entries@, all[k]));
            let j = choose|j: int| 0 <= j < entries@.len() && #[trigger] entry_text(bytes@, entries@[j]) == all[k];
            assert(counted(bytes@, all, entries@[j]));
        }
    }
    Ok(entries)
}

/// The local top three of one bucket, as `find_top3_triplets` returns it.
pub open spec fn bucket_top3(bytes: Seq<u8>, trips: Seq<(usize, usize)>, items: Seq<usize>, r: Top3Triplets) -> bool {
    &&& ordered(bytes, r)
    &&& counted(bytes, texts_of(bytes, trips, items), r.gold)
    &&& counted(bytes, texts_of(bytes, trips, items), r.silver)
    &&& counted(bytes, texts_of(bytes, trips, items), r.bronze)
    &&& forall|k: int|
        0 <= k < items.len() ==> occ(texts_of(bytes, trips, items), #[trigger] texts_of(bytes, trips, items)[k])
            <= r.gold.count
    &&& distinct_by(podium(r), text_fn(bytes))
    &&& forall|k: int|
        0 <= k < items.len() ==> on_podium(bytes, r, #[trigger] texts_of(bytes, trips, items)[k]) || occ(
            texts_of(bytes, trips, items),
            texts_of(bytes, trips, items)[k],
        ) <= r.bronze.count
    &&& r.gold == sentinel() || first_entry(bytes, trips, items, r.gold)
    &&& r.silver == sentinel() || first_entry(bytes, trips, items, r.silver)
    &&& r.bronze == sentinel() || first_entry(bytes, trips, items, r.bronze)
    &&& forall|k: int|
        0 <= k < items.len() && first_at(texts_of(bytes, trips, items), k) ==> on_podium(
            bytes,
            r,
            #[trigger] texts_of(bytes, trips, items)[k],
        ) || !beats(bytes, bucket_entry(bytes, trips, items, k), r.bronze)
}

/// The local top three of one bucket: counts are exact, entries sit at the
/// first occurrence of their texts, and every other text of the bucket ranks
/// no higher than bronze.
pub fn find_top3_triplets(bytes: &Vec<u8>, trips: &Vec<(usize, usize)>, items: &Vec<usize>) -> (res:
    Result<Top3Triplets, CoreError>)
    requires
        spans_valid(bytes@, trips@),
        forall|k: int| 0 <= k < items@.len() ==> (#[trigger] items@[k]) < trips@.len(),
    ensures
        res is Err <==> overflows(texts_of(bytes@, trips@, items@)),
        res is Err ==> res == Err::<Top3Triplets, CoreError>(CoreError::Overflow),
        res is Ok ==> bucket_top3(bytes@, trips@, items@, res->Ok_0),
{
    let entries = match count_bucket(bytes, trips, items) {
        Ok(v) => v,
        Err(e) => {
            return Err(e);
        },
    };
    let r = find_top3triplets_from_hashmap(bytes, &entries);
    proof {
        let tx = texts_of(bytes@, trips@, items@);
        let p = |e: Triplet| counted(bytes@, tx, e);
        assert forall|k: int| 0 <= k < entries@.len() implies p(#[trigger] entries@[k]) by {
            assert(counted(bytes@, tx, entries@[k]));
        }
        lemma_rank_members(bytes@, empty_top3(), entries@, p);
        lemma_rank_all(bytes@, empty_top3(), entries@);
        assert forall|k: int| 0 <= k < items@.len() implies occ(tx, #[trigger] tx[k]) <= r.gold.count by {
            assert(has_entry(bytes@, entries@, tx[k]));
            let j = choose|j: int| 0 <= j < entries@.len() && #[trigger] entry_text(bytes@, entries@[j]) == tx[k];
            assert(counted(bytes@, tx, entries@[j]));
            assert(!beats(bytes@, entries@[j], r.gold));
        }
        let f = text_fn(bytes@);
        let u = podium(empty_top3()) + entries@;
        assert forall|i: int, j: int| 0 <= i < j < u.len() && occurs(#[trigger] u[i]) && occurs(#[trigger] u[j])
            implies f(u[i]) != f(u[j]) by {
            assert(i >= 3 && j >= 3);
            assert(u[i] == entries@[i - 3] && u[j] == entries@[j - 3]);
        }
        lemma_rank_distinct(bytes@, empty_top3(), entries@, f);
        lemma_rank_keeps(bytes@, empty_top3(), entries@);
        assert forall|k: int| 0 <= k < items@.len() implies on_podium(bytes@, r, #[trigger] tx[k]) || occ(tx, tx[k])
            <= r.bronze.count by {
            assert(has_entry(bytes@, entries@, tx[k]));
            let j = choose|j: int| 0 <= j < entries@.len() && #[trigger] entry_text(bytes@, entries@[j]) == tx[k];
            assert(counted(bytes@, tx, entries@[j]));
            assert(crate::ranking::keeps(bytes@, r, entries@[j]));
        }
        let first_or_empty = |e: Triplet| e == sentinel() || first_entry(bytes@, trips@, items@, e);
        assert forall|k: int| 0 <= k < entries@.len() implies first_or_empty(#[trigger] entries@[k]) by {
            assert(first_entry(bytes@, trips@, items@, entries@[k]));
        }
        lemma_rank_members(bytes@, empty_top3(), entries@, first_or_empty);
        assert forall|k: int| 0 <= k < items@.len() && first_at(tx, k) implies on_podium(bytes@, r, #[trigger] tx[k])
            || !beats(bytes@, bucket_entry(bytes@, trips@, items@, k), r.bronze) by {
            assert(has_entry(bytes@, entries@, tx[k]));
            let j = choose|j: int| 0 <= j < entries@.len() && #[trigger] entry_text(bytes@, entries@[j]) == tx[k];
            let e = entries@[j];
            assert(counted(bytes@, tx, e));
            assert(first_entry(bytes@, trips@, items@, e));
            let k2 = choose|k2: int| entry_at(bytes@, trips@, items@, e, k2);
            assert(tx[k2] == entry_text(bytes@, e));
            if k2 < k {
                assert(tx[k2] != tx[k]);
            } else if k < k2 {
                assert(tx[k] != tx[k2]);
            }
            lemma_occ_le_len(tx, tx[k]);
            assert(e == bucket_entry(bytes@, trips@, items@, k));
            assert(crate::ranking::keeps(bytes@, r, e));
        }
    }
    Ok(r)
}

} // verus!
