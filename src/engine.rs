use vstd::prelude::*;
use crate::normalize::NormalizedText;
use crate::triplets::{
    CoreError,
    triplets_of,
    triplet_spans_ok,
    window_spans,
    extract_triplets,
    hash_of,
    bucketize,
};
use crate::ranking::{
    entry_text,
    Triplet,
    Top3Triplets,
    beats,
    ordered,
    podium,
    rank_all,
    lemma_rank_all,
    lemma_rank_members,
    lemma_rank_keeps,
    lemma_rank_distinct,
    keeps,
    occurs,
    distinct_by,
};
use crate::counting::{
    occ,
    text_at,
    texts_of,
    counted,
    spans_valid,
    lemma_occ_le_len,
    lemma_occ_exists,
    lemma_occ_prefix,
    find_top3_triplets,
    overflows,
    on_podium,
    text_fn,
    first_at,
    first_entry,
    entry_at,
    bucket_entry,
    bucket_top3,
};

verus! {

broadcast use crate::lexorder::group_lex;

/// The texts of all spans, in order.
pub open spec fn all_texts(bytes: Seq<u8>, trips: Seq<(usize, usize)>) -> Seq<Seq<u8>> {
    Seq::new(trips.len(), |i: int| text_at(bytes, trips[i]))
}

/// The bucket id of each span.
pub open spec fn bucket_ids(bytes: Seq<u8>, trips: Seq<(usize, usize)>, mask: u32) -> Seq<u32> {
    Seq::new(trips.len(), |i: int| hash_of(text_at(bytes, trips[i])) & mask)
}

/// The positions whose id is `b`, in increasing order.
pub open spec fn idx_in(ids: Seq<u32>, b: int) -> Seq<usize>
    decreases ids.len(),
{
    if ids.len() == 0 {
        seq![]
    } else if ids.last() as int == b {
        idx_in(ids.drop_last(), b).push((ids.len() - 1) as usize)
    } else {
        idx_in(ids.drop_last(), b)
    }
}

/// A bucket count is usable: a power of two that fits the hash width.
pub open spec fn valid_bucket_count(nb: usize) -> bool {
    1 <= nb <= 0x1_0000_0000 && nb & ((nb - 1) as usize) == 0
}

proof fn lemma_idx_in(ids: Seq<u32>, b: int)
    requires
        ids.len() <= usize::MAX,
    ensures
        idx_in(ids, b).len() <= ids.len(),
        forall|j: int|
            0 <= j < idx_in(ids, b).len() ==> (#[trigger] idx_in(ids, b)[j]) < ids.len() && ids[idx_in(
                ids,
                b,
            )[j] as int] as int == b,
    decreases ids.len(),
{
    if ids.len() > 0 {
        lemma_idx_in(ids.drop_last(), b);
        let p = idx_in(ids.drop_last(), b);
        assert forall|j: int| 0 <= j < idx_in(ids, b).len() implies (#[trigger] idx_in(ids, b)[j])
            < ids.len() && ids[idx_in(ids, b)[j] as int] as int == b by {
            if j < p.len() {
                assert(idx_in(ids, b)[j] == p[j]);
                assert(ids[p[j] as int] == ids.drop_last()[p[j] as int]);
            } else {
                assert(ids.last() as int == b);
                assert(idx_in(ids, b)[j] == (ids.len() - 1) as usize);
            }
        }
    }
}

proof fn lemma_idx_in_order(ids: Seq<u32>, b: int)
    requires
        ids.len() <= usize::MAX,
    ensures
        forall|k1: int, k2: int|
            0 <= k1 < k2 < idx_in(ids, b).len() ==> #[trigger] idx_in(ids, b)[k1] < #[trigger] idx_in(ids, b)[k2],
        forall|i: int| 0 <= i < ids.len() && #[trigger] ids[i] as int == b ==> exists|k: int|
            0 <= k < idx_in(ids, b).len() && idx_in(ids, b)[k] == i,
    decreases ids.len(),
{
    lemma_idx_in(ids, b);
    if ids.len() > 0 {
        let d = ids.drop_last();
        lemma_idx_in_order(d, b);
        lemma_idx_in(d, b);
        let p = idx_in(d, b);
        let q = idx_in(ids, b);
        assert forall|k1: int, k2: int| 0 <= k1 < k2 < q.len() implies #[trigger] q[k1] < #[trigger] q[k2] by {
            if k2 < p.len() {
                assert(q[k1] == p[k1] && q[k2] == p[k2]);
            } else {
                assert(q[k1] == p[k1]);
            }
        }
        assert forall|i: int| 0 <= i < ids.len() && #[trigger] ids[i] as int == b implies exists|k: int|
            0 <= k < q.len() && q[k] == i by {
            if i < d.len() {
                assert(d[i] == ids[i]);
                let k = choose|k: int| 0 <= k < p.len() && p[k] == i;
                assert(q[k] == p[k]);
            } else {
                assert(q[p.len() as int] == i);
            }
        }
    }
}

/// The entry for the first occurrence of the triplet at `i`: its span and its
/// number of occurrences in the whole text.
pub open spec fn global_entry(bytes: Seq<u8>, trips: Seq<(usize, usize)>, i: int) -> Triplet {
    Triplet {
        start: trips[i].0,
        end: trips[i].1,
        count: occ(all_texts(bytes, trips), all_texts(bytes, trips)[i]) as u32,
    }
}

/// `e` spans the first occurrence of its text in the whole text.
pub open spec fn global_first(bytes: Seq<u8>, trips: Seq<(usize, usize)>, e: Triplet) -> bool {
    exists|i: int|
        0 <= i < trips.len() && trips[i].0 == e.start && trips[i].1 == e.end && first_at(all_texts(bytes, trips), i)
}

proof fn lemma_bridge(bytes: Seq<u8>, trips: Seq<(usize, usize)>, mask: u32, b: int, k: int)
    requires
        trips.len() <= u32::MAX,
        0 <= k < idx_in(bucket_ids(bytes, trips, mask), b).len(),
    ensures
        first_at(texts_of(bytes, trips, idx_in(bucket_ids(bytes, trips, mask), b)), k) <==> first_at(
            all_texts(bytes, trips),
            idx_in(bucket_ids(bytes, trips, mask), b)[k] as int,
        ),
        bucket_entry(bytes, trips, idx_in(bucket_ids(bytes, trips, mask), b), k) == global_entry(
            bytes,
            trips,
            idx_in(bucket_ids(bytes, trips, mask), b)[k] as int,
        ),
{
    let ids = bucket_ids(bytes, trips, mask);
    let items = idx_in(ids, b);
    let tb = texts_of(bytes, trips, items);
    let all = all_texts(bytes, trips);
    lemma_idx_in(ids, b);
    lemma_idx_in_order(ids, b);
    let i = items[k] as int;
    assert(tb[k] == all[i]);
    assert(ids[i] as int == b);
    if first_at(all, i) {
        assert forall|m: int| 0 <= m < k implies tb[m] != tb[k] by {
            assert(items[m] < items[k]);
            assert(tb[m] == all[items[m] as int]);
        }
    }
    if first_at(tb, k) {
        assert forall|m: int| 0 <= m < i implies all[m] != all[i] by {
            if all[m] == all[i] {
                assert(ids[m] == ids[i]);
                let k2 = choose|k2: int| 0 <= k2 < items.len() && items[k2] == m;
                if k2 >= k {
                    if k2 > k {
                        assert(items[k] < items[k2]);
                    }
                }
                assert(tb[k2] == all[m]);
            }
        }
    }
    lemma_bucket_occ(bytes, trips, mask, all[i], trips.len() as int);
    assert(ids.take(trips.len() as int) =~= ids);
    assert(all.take(trips.len() as int) =~= all);
}

/// No bucket of at most `u32::MAX` triplets can overflow a count.
proof fn lemma_no_overflow(bytes: Seq<u8>, trips: Seq<(usize, usize)>, mask: u32, b: int)
    requires
        trips.len() <= u32::MAX,
    ensures
        !overflows(texts_of(bytes, trips, idx_in(bucket_ids(bytes, trips, mask), b))),
{
    let tb = texts_of(bytes, trips, idx_in(bucket_ids(bytes, trips, mask), b));
    lemma_idx_in(bucket_ids(bytes, trips, mask), b);
    assert forall|k: int| 0 <= k < tb.len() implies occ(tb, #[trigger] tb[k]) <= u32::MAX by {
        lemma_occ_le_len(tb, tb[k]);
    }
}

/// A text with bucket id `b` occurs in bucket `b` as often as in the whole sequence.
proof fn lemma_bucket_occ(bytes: Seq<u8>, trips: Seq<(usize, usize)>, mask: u32, x: Seq<u8>, m: int)
    requires
        0 <= m <= trips.len(),
        trips.len() <= usize::MAX,
    ensures
        occ(
            texts_of(bytes, trips, idx_in(bucket_ids(bytes, trips, mask).take(m), (hash_of(x) & mask) as int)),
            x,
        ) == occ(all_texts(bytes, trips).take(m), x),
    decreases m,
{
    let ids = bucket_ids(bytes, trips, mask);
    let b = (hash_of(x) & mask) as int;
    let all = all_texts(bytes, trips);
    if m == 0 {
        assert(idx_in(ids.take(0), b) =~= seq![]);
        assert(texts_of(bytes, trips, seq![]) =~= seq![]);
        assert(all.take(0) =~= seq![]);
    } else {
        lemma_bucket_occ(bytes, trips, mask, x, m - 1);
        assert(ids.take(m).drop_last() =~= ids.take(m - 1));
        assert(all.take(m).drop_last() =~= all.take(m - 1));
        let p = idx_in(ids.take(m - 1), b);
        if ids[m - 1] as int == b {
            assert(idx_in(ids.take(m), b) == p.push((m - 1) as usize));
            let q = texts_of(bytes, trips, p.push((m - 1) as usize));
            assert(q.drop_last() =~= texts_of(bytes, trips, p));
            assert(q.last() == all[m - 1]);
            assert(all.take(m).last() == all[m - 1]);
        } else {
            assert(idx_in(ids.take(m), b) == p);
            assert(all[m - 1] != x);
            assert(all.take(m).last() == all[m - 1]);
        }
    }
}

/// Appends `x` to bucket `b`.
fn push_into(buckets: &mut Vec<Vec<usize>>, b: usize, x: usize)
    requires
        b < old(buckets)@.len(),
    ensures
        final(buckets)@.len() == old(buckets)@.len(),
        forall|c: int| 0 <= c < final(buckets)@.len() && c != b ==> #[trigger] final(buckets)@[c] == old(buckets)@[c],
        final(buckets)@[b as int]@ == old(buckets)@[b as int]@.push(x),
{
    let mut v = buckets.swap_remove(b);
    v.push(x);
    buckets.push(v);
    let last = buckets.len() - 1;
    if b < last {
        let w = buckets.swap_remove(b);
        buckets.push(w);
    }
    proof {
        assert forall|c: int| 0 <= c < buckets@.len() && c != b implies #[trigger] buckets@[c] == old(buckets)@[c] by {
        }
    }
}

/// Assigns each triplet to the bucket its hash selects.
pub fn partition(bytes: &Vec<u8>, trips: &Vec<(usize, usize)>, num_buckets: usize) -> (r: Vec<Vec<usize>>)
    requires
        spans_valid(bytes@, trips@),
        valid_bucket_count(num_buckets),
    ensures
        r@.len() == num_buckets,
        forall|b: int| 0 <= b < num_buckets ==> (#[trigger] r@[b])@ == idx_in(
            bucket_ids(bytes@, trips@, (num_buckets - 1) as u32),
            b,
        ),
{
    let mask: u32 = (num_buckets - 1) as u32;
    let ghost ids = bucket_ids(bytes@, trips@, mask);
    let mut buckets: Vec<Vec<usize>> = Vec::new();
    let mut b: usize = 0;
    while b < num_buckets
        invariant
            buckets@.len() == b,
            b <= num_buckets,
            forall|c: int| 0 <= c < b ==> (#[trigger] buckets@[c])@ == Seq::<usize>::empty(),
        decreases num_buckets - b,
    {
        buckets.push(Vec::new());
        b = b + 1;
    }
    let mut i: usize = 0;
    while i < trips.len()
        invariant
            spans_valid(bytes@, trips@),
            valid_bucket_count(num_buckets),
            mask == (num_buckets - 1) as u32,
            ids == bucket_ids(bytes@, trips@, mask),
            0 <= i <= trips@.len(),
            buckets@.len() == num_buckets,
            forall|c: int| 0 <= c < num_buckets ==> (#[trigger] buckets@[c])@ == idx_in(ids.take(i as int), c),
        decreases trips@.len() - i,
    {
        let sp = trips[i];
        assert(sp.0 < sp.1 <= bytes@.len());
        let slice = &bytes.as_slice()[sp.0..sp.1];
        assert(slice@ == text_at(bytes@, sp));
        let full = bucketize(slice);
        let h = full & mask;
        assert(h <= mask) by (bit_vector)
            requires
                h == full & mask,
        ;
        assert(h == ids[i as int]);
        proof {
            assert(ids.take(i + 1).drop_last() =~= ids.take(i as int));
        }
        push_into(&mut buckets, h as usize, i);
        i = i + 1;
    }
    assert(ids.take(i as int) =~= ids);
    buckets
}

/// Every triplet in bucket `b` occurs at most `g` times in the whole text.
pub open spec fn covered(bytes: Seq<u8>, trips: Seq<(usize, usize)>, mask: u32, b: int, g: int) -> bool {
    forall|k: int|
        0 <= k < trips.len() && bucket_ids(bytes, trips, mask)[k] as int == b ==> occ(
            all_texts(bytes, trips),
            #[trigger] all_texts(bytes, trips)[k],
        ) <= g
}

/// `t` is the top three of the triplets: slots are first occurrences with
/// exact counts, in ranking order, with different texts, and every first
/// occurrence left off the podium ranks no higher than bronze.
pub open spec fn exact_top3(bytes: Seq<u8>, trips: Seq<(usize, usize)>, t: Top3Triplets) -> bool {
    &&& ordered(bytes, t)
    &&& slot_ok(bytes, trips, t.gold)
    &&& slot_ok(bytes, trips, t.silver)
    &&& slot_ok(bytes, trips, t.bronze)
    &&& distinct_by(podium(t), text_fn(bytes))
    &&& forall|i: int|
        0 <= i < trips.len() && first_at(all_texts(bytes, trips), i) ==> on_podium(
            bytes,
            t,
            #[trigger] all_texts(bytes, trips)[i],
        ) || !beats(bytes, global_entry(bytes, trips, i), t.bronze)
}

/// Every triplet in bucket `b` is on the podium of `t`, or occurs at most as
/// often as its bronze entry.
pub open spec fn settled(bytes: Seq<u8>, trips: Seq<(usize, usize)>, mask: u32, b: int, t: Top3Triplets) -> bool {
    forall|k: int|
        0 <= k < trips.len() && bucket_ids(bytes, trips, mask)[k] as int == b ==> on_podium(
            bytes,
            t,
            #[trigger] all_texts(bytes, trips)[k],
        ) || occ(all_texts(bytes, trips), all_texts(bytes, trips)[k]) <= t.bronze.count
}

/// The bucket of each real podium entry is among the first `r` of `order`.
pub open spec fn placed(bytes: Seq<u8>, mask: u32, t: Top3Triplets, order: Seq<(usize, usize)>, r: int) -> bool {
    forall|m: int|
        0 <= m < 3 && occurs(#[trigger] podium(t)[m]) ==> exists|q: int|
            0 <= q < r && (hash_of(entry_text(bytes, podium(t)[m])) & mask) as int == order[q].1 as int
}

/// A result whose entries carry exact counts over `texts`, in ranking order,
/// with a gold entry that no text outnumbers.
pub open spec fn ranked(bytes: Seq<u8>, texts: Seq<Seq<u8>>, t: Top3Triplets) -> bool {
    &&& ordered(bytes, t)
    &&& counted(bytes, texts, t.gold)
    &&& counted(bytes, texts, t.silver)
    &&& counted(bytes, texts, t.bronze)
    &&& forall|k: int| 0 <= k < texts.len() ==> occ(texts, #[trigger] texts[k]) <= t.gold.count
    &&& distinct_by(podium(t), text_fn(bytes))
    &&& forall|k: int|
        0 <= k < texts.len() ==> on_podium(bytes, t, #[trigger] texts[k]) || occ(texts, texts[k])
            <= t.bronze.count
}

proof fn lemma_bucket_small(bytes: Seq<u8>, trips: Seq<(usize, usize)>, mask: u32, b: int, g: int)
    requires
        trips.len() <= usize::MAX,
        idx_in(bucket_ids(bytes, trips, mask), b).len() <= g,
    ensures
        covered(bytes, trips, mask, b, g),
{
    let all = all_texts(bytes, trips);
    let ids = bucket_ids(bytes, trips, mask);
    assert forall|k: int| 0 <= k < trips.len() && ids[k] as int == b implies occ(all, #[trigger] all[k]) <= g by {
        lemma_bucket_occ(bytes, trips, mask, all[k], trips.len() as int);
        assert(ids.take(trips.len() as int) =~= ids);
        assert(all.take(trips.len() as int) =~= all);
        lemma_occ_le_len(texts_of(bytes, trips, idx_in(ids, b)), all[k]);
    }
}

proof fn lemma_bucket_cover(bytes: Seq<u8>, trips: Seq<(usize, usize)>, mask: u32, b: int, g: int)
    requires
        trips.len() <= usize::MAX,
        forall|j: int|
            0 <= j < idx_in(bucket_ids(bytes, trips, mask), b).len() ==> occ(
                texts_of(bytes, trips, idx_in(bucket_ids(bytes, trips, mask), b)),
                #[trigger] texts_of(bytes, trips, idx_in(bucket_ids(bytes, trips, mask), b))[j],
            ) <= g,
    ensures
        covered(bytes, trips, mask, b, g),
{
    let all = all_texts(bytes, trips);
    let ids = bucket_ids(bytes, trips, mask);
    let tb = texts_of(bytes, trips, idx_in(ids, b));
    assert(ids.take(trips.len() as int) =~= ids);
    assert(all.take(trips.len() as int) =~= all);
    assert forall|k: int| 0 <= k < trips.len() && ids[k] as int == b implies occ(all, #[trigger] all[k]) <= g by {
        let x = all[k];
        lemma_bucket_occ(bytes, trips, mask, x, trips.len() as int);
        assert(occ(all, x) >= 1) by {
            let t = all.take(k + 1);
            assert(t.last() == x);
            lemma_occ_prefix(all, x, k + 1);
        }
        lemma_occ_exists(tb, x);
        let j = choose|j: int| 0 <= j < tb.len() && tb[j] == x;
        assert(occ(tb, tb[j]) <= g);
    }
}

proof fn lemma_local_to_global(bytes: Seq<u8>, trips: Seq<(usize, usize)>, mask: u32, b: int, e: Triplet)
    requires
        trips.len() <= usize::MAX,
        counted(bytes, texts_of(bytes, trips, idx_in(bucket_ids(bytes, trips, mask), b)), e),
    ensures
        counted(bytes, all_texts(bytes, trips), e),
        e != crate::ranking::sentinel() ==> (hash_of(entry_text(bytes, e)) & mask) as int == b,
{
    if e != crate::ranking::sentinel() {
        let ids = bucket_ids(bytes, trips, mask);
        let items = idx_in(ids, b);
        let tb = texts_of(bytes, trips, items);
        let x = entry_text(bytes, e);
        lemma_occ_exists(tb, x);
        let j = choose|j: int| 0 <= j < tb.len() && tb[j] == x;
        lemma_idx_in(ids, b);
        assert(items[j] < ids.len() && ids[items[j] as int] as int == b);
        assert(hash_of(x) & mask == ids[items[j] as int]);
        lemma_bucket_occ(bytes, trips, mask, x, trips.len() as int);
        assert(ids.take(trips.len() as int) =~= ids);
        assert(all_texts(bytes, trips).take(trips.len() as int) =~= all_texts(bytes, trips));
    }
}

proof fn lemma_settled_step(
    bytes: Seq<u8>,
    trips: Seq<(usize, usize)>,
    mask: u32,
    b: int,
    old_t: Top3Triplets,
    new_t: Top3Triplets,
)
    requires
        settled(bytes, trips, mask, b, old_t),
        keeps(bytes, new_t, old_t.gold),
        keeps(bytes, new_t, old_t.silver),
        keeps(bytes, new_t, old_t.bronze),
        counted(bytes, all_texts(bytes, trips), old_t.gold),
        counted(bytes, all_texts(bytes, trips), old_t.silver),
        counted(bytes, all_texts(bytes, trips), old_t.bronze),
        !beats(bytes, old_t.bronze, new_t.bronze),
    ensures
        settled(bytes, trips, mask, b, new_t),
{
}

proof fn lemma_bucket_settle(
    bytes: Seq<u8>,
    trips: Seq<(usize, usize)>,
    mask: u32,
    b: int,
    local: Top3Triplets,
    new_t: Top3Triplets,
)
    requires
        trips.len() <= usize::MAX,
        ordered(bytes, local),
        distinct_by(podium(local), text_fn(bytes)),
        forall|k: int|
            0 <= k < idx_in(bucket_ids(bytes, trips, mask), b).len() ==> on_podium(
                bytes,
                local,
                #[trigger] texts_of(bytes, trips, idx_in(bucket_ids(bytes, trips, mask), b))[k],
            ) || occ(
                texts_of(bytes, trips, idx_in(bucket_ids(bytes, trips, mask), b)),
                texts_of(bytes, trips, idx_in(bucket_ids(bytes, trips, mask), b))[k],
            ) <= local.bronze.count,
        counted(bytes, all_texts(bytes, trips), local.gold),
        counted(bytes, all_texts(bytes, trips), local.silver),
        counted(bytes, all_texts(bytes, trips), local.bronze),
        keeps(bytes, new_t, local.gold),
        keeps(bytes, new_t, local.silver),
        keeps(bytes, new_t, local.bronze),
    ensures
        settled(bytes, trips, mask, b, new_t),
{
    let all = all_texts(bytes, trips);
    let ids = bucket_ids(bytes, trips, mask);
    let tb = texts_of(bytes, trips, idx_in(ids, b));
    let f = text_fn(bytes);
    assert(ids.take(trips.len() as int) =~= ids);
    assert(all.take(trips.len() as int) =~= all);
    assert(podium(local)[0] == local.gold && podium(local)[1] == local.silver && podium(local)[2] == local.bronze);
    assert forall|k: int| 0 <= k < trips.len() && ids[k] as int == b implies on_podium(bytes, new_t, #[trigger] all[k])
        || occ(all, all[k]) <= new_t.bronze.count by {
        let x = all[k];
        lemma_bucket_occ(bytes, trips, mask, x, trips.len() as int);
        assert(occ(all, x) >= 1) by {
            lemma_occ_prefix(all, x, k + 1);
        }
        lemma_occ_exists(tb, x);
        let j = choose|j: int| 0 <= j < tb.len() && tb[j] == x;
        if !on_podium(bytes, local, x) {
            assert(occ(tb, x) <= local.bronze.count);
            if occ(all, x) > new_t.bronze.count {
                assert(f(local.gold) != f(local.silver));
                assert(f(local.gold) != f(local.bronze));
                assert(f(local.silver) != f(local.bronze));
            }
        }
    }
}

/// Every first occurrence of a triplet in bucket `b` is on the podium of `t`,
/// or its entry ranks no higher than bronze.
pub open spec fn settled_first(bytes: Seq<u8>, trips: Seq<(usize, usize)>, mask: u32, b: int, t: Top3Triplets) -> bool {
    forall|i: int|
        0 <= i < trips.len() && bucket_ids(bytes, trips, mask)[i] as int == b && first_at(all_texts(bytes, trips), i)
            ==> on_podium(bytes, t, #[trigger] all_texts(bytes, trips)[i]) || !beats(bytes, global_entry(bytes, trips, i), t.bronze)
}

/// A podium slot is the empty sentinel, or a first occurrence with its exact count.
pub open spec fn slot_ok(bytes: Seq<u8>, trips: Seq<(usize, usize)>, e: Triplet) -> bool {
    e == crate::ranking::sentinel() || (global_first(bytes, trips, e) && counted(bytes, all_texts(bytes, trips), e))
}

proof fn lemma_global_entry_id(bytes: Seq<u8>, trips: Seq<(usize, usize)>, e: Triplet, i: int)
    requires
        slot_ok(bytes, trips, e),
        occurs(e),
        0 <= i < trips.len(),
        first_at(all_texts(bytes, trips), i),
        entry_text(bytes, e) == all_texts(bytes, trips)[i],
    ensures
        e == global_entry(bytes, trips, i),
{
    let all = all_texts(bytes, trips);
    let i2 = choose|i2: int|
        0 <= i2 < trips.len() && trips[i2].0 == e.start && trips[i2].1 == e.end && first_at(all, i2);
    assert(all[i2] == entry_text(bytes, e));
    if i2 < i {
        assert(all[i2] != all[i]);
    } else if i < i2 {
        assert(all[i] != all[i2]);
    }
}

proof fn lemma_local_first(bytes: Seq<u8>, trips: Seq<(usize, usize)>, mask: u32, b: int, e: Triplet)
    requires
        trips.len() <= u32::MAX,
        first_entry(bytes, trips, idx_in(bucket_ids(bytes, trips, mask), b), e),
    ensures
        global_first(bytes, trips, e),
{
    let items = idx_in(bucket_ids(bytes, trips, mask), b);
    let k = choose|k: int| entry_at(bytes, trips, items, e, k);
    lemma_bridge(bytes, trips, mask, b, k);
    lemma_idx_in(bucket_ids(bytes, trips, mask), b);
    assert(items[k] < trips.len());
}

proof fn lemma_settled_first_step(
    bytes: Seq<u8>,
    trips: Seq<(usize, usize)>,
    mask: u32,
    b: int,
    old_t: Top3Triplets,
    new_t: Top3Triplets,
)
    requires
        settled_first(bytes, trips, mask, b, old_t),
        keeps(bytes, new_t, old_t.gold),
        keeps(bytes, new_t, old_t.silver),
        keeps(bytes, new_t, old_t.bronze),
        slot_ok(bytes, trips, old_t.gold),
        slot_ok(bytes, trips, old_t.silver),
        slot_ok(bytes, trips, old_t.bronze),
        !beats(bytes, old_t.bronze, new_t.bronze),
    ensures
        settled_first(bytes, trips, mask, b, new_t),
{
    let all = all_texts(bytes, trips);
    assert forall|i: int|
        0 <= i < trips.len() && bucket_ids(bytes, trips, mask)[i] as int == b && first_at(all, i) implies on_podium(
        bytes,
        new_t,
        #[trigger] all[i],
    ) || !beats(bytes, global_entry(bytes, trips, i), new_t.bronze) by {
        if occurs(old_t.gold) && entry_text(bytes, old_t.gold) == all[i] {
            lemma_global_entry_id(bytes, trips, old_t.gold, i);
        } else if occurs(old_t.silver) && entry_text(bytes, old_t.silver) == all[i] {
            lemma_global_entry_id(bytes, trips, old_t.silver, i);
        } else if occurs(old_t.bronze) && entry_text(bytes, old_t.bronze) == all[i] {
            lemma_global_entry_id(bytes, trips, old_t.bronze, i);
        }
    }
}

proof fn lemma_bucket_settle_first(
    bytes: Seq<u8>,
    trips: Seq<(usize, usize)>,
    mask: u32,
    b: int,
    local: Top3Triplets,
    new_t: Top3Triplets,
)
    requires
        trips.len() <= u32::MAX,
        ordered(bytes, local),
        distinct_by(podium(local), text_fn(bytes)),
        forall|k: int|
            0 <= k < idx_in(bucket_ids(bytes, trips, mask), b).len() && first_at(
                texts_of(bytes, trips, idx_in(bucket_ids(bytes, trips, mask), b)),
                k,
            ) ==> on_podium(
                bytes,
                local,
                #[trigger] texts_of(bytes, trips, idx_in(bucket_ids(bytes, trips, mask), b))[k],
            ) || !beats(bytes, bucket_entry(bytes, trips, idx_in(bucket_ids(bytes, trips, mask), b), k), local.bronze),
        slot_ok(bytes, trips, local.gold),
        slot_ok(bytes, trips, local.silver),
        slot_ok(bytes, trips, local.bronze),
        keeps(bytes, new_t, local.gold),
        keeps(bytes, new_t, local.silver),
        keeps(bytes, new_t, local.bronze),
    ensures
        settled_first(bytes, trips, mask, b, new_t),
{
    let all = all_texts(bytes, trips);
    let ids = bucket_ids(bytes, trips, mask);
    let items = idx_in(ids, b);
    let tb = texts_of(bytes, trips, items);
    let f = text_fn(bytes);
    lemma_idx_in_order(ids, b);
    assert(podium(local)[0] == local.gold && podium(local)[1] == local.silver && podium(local)[2] == local.bronze);
    assert forall|i: int| 0 <= i < trips.len() && ids[i] as int == b && first_at(all, i) implies on_podium(
        bytes,
        new_t,
        #[trigger] all[i],
    ) || !beats(bytes, global_entry(bytes, trips, i), new_t.bronze) by {
        let k = choose|k: int| 0 <= k < items.len() && items[k] == i;
        lemma_bridge(bytes, trips, mask, b, k);
        assert(tb[k] == all[i]);
        let g = global_entry(bytes, trips, i);
        if occurs(local.gold) && entry_text(bytes, local.gold) == all[i] {
            lemma_global_entry_id(bytes, trips, local.gold, i);
        } else if occurs(local.silver) && entry_text(bytes, local.silver) == all[i] {
            lemma_global_entry_id(bytes, trips, local.silver, i);
        } else if occurs(local.bronze) && entry_text(bytes, local.bronze) == all[i] {
            lemma_global_entry_id(bytes, trips, local.bronze, i);
        } else {
            assert(!beats(bytes, g, local.bronze));
            assert(occ(all, all[i]) >= 1) by {
                lemma_occ_prefix(all, all[i], i + 1);
            }
            lemma_occ_le_len(all, all[i]);
            assert(g.count >= 1);
            if beats(bytes, g, new_t.bronze) {
                assert(f(local.gold) != f(local.silver));
                assert(f(local.gold) != f(local.bronze));
                assert(f(local.silver) != f(local.bronze));
            }
        }
    }
}

/// What the ranking loop keeps after visiting the first `r` buckets of `order`.
pub open spec fn loop_inv(
    bytes: Seq<u8>,
    tr: Seq<(usize, usize)>,
    mask: u32,
    order: Seq<(usize, usize)>,
    r: int,
    t: Top3Triplets,
) -> bool {
    &&& ordered(bytes, t)
    &&& counted(bytes, all_texts(bytes, tr), t.gold)
    &&& counted(bytes, all_texts(bytes, tr), t.silver)
    &&& counted(bytes, all_texts(bytes, tr), t.bronze)
    &&& slot_ok(bytes, tr, t.gold)
    &&& slot_ok(bytes, tr, t.silver)
    &&& slot_ok(bytes, tr, t.bronze)
    &&& distinct_by(podium(t), text_fn(bytes))
    &&& placed(bytes, mask, t, order, r)
    &&& forall|q: int| 0 <= q < r ==> covered(bytes, tr, mask, (#[trigger] order[q]).1 as int, t.gold.count as int)
    &&& forall|q: int| 0 <= q < r ==> settled(bytes, tr, mask, (#[trigger] order[q]).1 as int, t)
    &&& forall|q: int| 0 <= q < r ==> settled_first(bytes, tr, mask, (#[trigger] order[q]).1 as int, t)
}

proof fn lemma_merge_step(
    bytes: Seq<u8>,
    tr: Seq<(usize, usize)>,
    mask: u32,
    order: Seq<(usize, usize)>,
    r: int,
    before: Top3Triplets,
    local: Top3Triplets,
    top: Top3Triplets,
)
    requires
        tr.len() <= u32::MAX,
        0 <= r < order.len(),
        forall|q: int| 0 <= q < r ==> order[q].1 != order[r].1,
        loop_inv(bytes, tr, mask, order, r, before),
        bucket_top3(bytes, tr, idx_in(bucket_ids(bytes, tr, mask), order[r].1 as int), local),
        top == rank_all(bytes, before, podium(local)),
    ensures
        loop_inv(bytes, tr, mask, order, r + 1, top),
{
    let bi = order[r].1;
    let all = all_texts(bytes, tr);
    let g0 = before.gold.count as int;
    lemma_idx_in(bucket_ids(bytes, tr, mask), bi as int);
    lemma_bucket_cover(bytes, tr, mask, bi as int, local.gold.count as int);
                lemma_local_to_global(bytes, tr, mask, bi as int, local.gold);
                lemma_local_to_global(bytes, tr, mask, bi as int, local.silver);
                lemma_local_to_global(bytes, tr, mask, bi as int, local.bronze);
                lemma_rank_all(bytes, before, podium(local));
                assert(!beats(bytes, podium(local)[0], top.gold));
                let p = |e: Triplet| counted(bytes, all, e);
                assert(podium(local)[0] == local.gold);
                assert(podium(local)[1] == local.silver);
                assert(podium(local)[2] == local.bronze);
                assert(p(podium(local)[0]) && p(podium(local)[1]) && p(podium(local)[2]));
                assert forall|k: int| 0 <= k < podium(local).len() implies p(#[trigger] podium(local)[k]) by {
                }
                lemma_rank_members(bytes, before, podium(local), p);
                lemma_rank_keeps(bytes, before, podium(local));
                assert(keeps(bytes, top, podium(local)[0]) && keeps(bytes, top, podium(local)[1]) && keeps(bytes, top, podium(local)[2]));
                lemma_bucket_settle(bytes, tr, mask, bi as int, local, top);
                if local.gold != crate::ranking::sentinel() {
                    lemma_local_first(bytes, tr, mask, bi as int, local.gold);
                }
                if local.silver != crate::ranking::sentinel() {
                    lemma_local_first(bytes, tr, mask, bi as int, local.silver);
                }
                if local.bronze != crate::ranking::sentinel() {
                    lemma_local_first(bytes, tr, mask, bi as int, local.bronze);
                }
                let slot_good = |e: Triplet| slot_ok(bytes, tr, e);
                assert forall|k: int| 0 <= k < podium(local).len() implies slot_good(#[trigger] podium(local)[k]) by {
                }
                lemma_rank_members(bytes, before, podium(local), slot_good);
                lemma_bucket_settle_first(bytes, tr, mask, bi as int, local, top);
                assert forall|q: int| 0 <= q < r implies settled_first(bytes, tr, mask, (#[trigger] order[q]).1 as int, top) by {
                    lemma_settled_first_step(bytes, tr, mask, order[q].1 as int, before, top);
                }
                assert forall|q: int| 0 <= q < r implies settled(bytes, tr, mask, (#[trigger] order[q]).1 as int, top) by {
                    lemma_settled_step(bytes, tr, mask, order[q].1 as int, before, top);
                }
                let f = text_fn(bytes);
                let u = podium(before) + podium(local);
                assert(podium(before)[0] == before.gold && podium(before)[1] == before.silver && podium(before)[2] == before.bronze);
                assert forall|i: int, j: int| 0 <= i < j < u.len() && occurs(#[trigger] u[i]) && occurs(#[trigger] u[j])
                    implies f(u[i]) != f(u[j]) by {
                    if i < 3 && j >= 3 {
                        assert(u[i] == podium(before)[i]);
                        assert(u[j] == podium(local)[j - 3]);
                        let q = choose|q: int| 0 <= q < r && (hash_of(entry_text(bytes, podium(before)[i])) & mask) as int == order[q].1 as int;
                        assert((hash_of(entry_text(bytes, podium(local)[j - 3])) & mask) as int == bi as int);
                    } else if i < 3 {
                        assert(u[i] == podium(before)[i] && u[j] == podium(before)[j]);
                    } else {
                        assert(u[i] == podium(local)[i - 3] && u[j] == podium(local)[j - 3]);
                    }
                }
                lemma_rank_distinct(bytes, before, podium(local), f);
                assert forall|m: int| 0 <= m < 3 && occurs(#[trigger] podium(top)[m]) implies exists|q: int|
                    0 <= q < r + 1 && (hash_of(entry_text(bytes, podium(top)[m])) & mask) as int == order[q].1 as int by {
                    let i = choose|i: int| 0 <= i < u.len() && u[i] == podium(top)[m];
                    if i < 3 {
                        assert(u[i] == podium(before)[i]);
                        let q = choose|q: int| 0 <= q < r && (hash_of(entry_text(bytes, podium(before)[i])) & mask) as int == order[q].1 as int;
                    } else {
                        assert(u[i] == podium(local)[i - 3]);
                        assert((hash_of(entry_text(bytes, podium(local)[i - 3])) & mask) as int == order[r].1 as int);
                    }
                }
    assert forall|q: int| 0 <= q < r + 1 implies settled(bytes, tr, mask, (#[trigger] order[q]).1 as int, top) by {
    }
    assert forall|q: int| 0 <= q < r + 1 implies settled_first(bytes, tr, mask, (#[trigger] order[q]).1 as int, top) by {
    }
    assert forall|q: int| 0 <= q < r + 1 implies covered(bytes, tr, mask, (#[trigger] order[q]).1 as int, top.gold.count as int) by {
        if q < r {
            assert(covered(bytes, tr, mask, order[q].1 as int, g0));
        }
    }
}

proof fn lemma_skip_step(
    bytes: Seq<u8>,
    tr: Seq<(usize, usize)>,
    mask: u32,
    order: Seq<(usize, usize)>,
    r: int,
    top: Top3Triplets,
)
    requires
        tr.len() <= u32::MAX,
        0 <= r < order.len(),
        loop_inv(bytes, tr, mask, order, r, top),
        idx_in(bucket_ids(bytes, tr, mask), order[r].1 as int).len() < top.bronze.count,
    ensures
        loop_inv(bytes, tr, mask, order, r + 1, top),
{
    let bi = order[r].1 as int;
    let all = all_texts(bytes, tr);
    let ids = bucket_ids(bytes, tr, mask);
    let pop = idx_in(ids, bi).len() as int;
    lemma_bucket_small(bytes, tr, mask, bi, pop);
    lemma_bucket_small(bytes, tr, mask, bi, top.gold.count as int);
    lemma_bucket_small(bytes, tr, mask, bi, top.bronze.count as int);
    assert forall|i: int| 0 <= i < tr.len() && ids[i] as int == bi && first_at(all, i) implies on_podium(
        bytes,
        top,
        #[trigger] all[i],
    ) || !beats(bytes, global_entry(bytes, tr, i), top.bronze) by {
        lemma_occ_le_len(all, all[i]);
        assert(covered(bytes, tr, mask, bi, pop));
    }
    assert forall|m: int| 0 <= m < 3 && occurs(#[trigger] podium(top)[m]) implies exists|q: int|
        0 <= q < r + 1 && (hash_of(entry_text(bytes, podium(top)[m])) & mask) as int == order[q].1 as int by {
        let q = choose|q: int| 0 <= q < r && (hash_of(entry_text(bytes, podium(top)[m])) & mask) as int == order[q].1 as int;
    }
    assert forall|q: int| 0 <= q < r + 1 implies settled(bytes, tr, mask, (#[trigger] order[q]).1 as int, top) by {
    }
    assert forall|q: int| 0 <= q < r + 1 implies settled_first(bytes, tr, mask, (#[trigger] order[q]).1 as int, top) by {
    }
    assert forall|q: int| 0 <= q < r + 1 implies covered(bytes, tr, mask, (#[trigger] order[q]).1 as int, top.gold.count as int) by {
    }
}

/// Some bucket visited in `order` is bucket `c`.
pub open spec fn visits(order: Seq<(usize, usize)>, c: int) -> bool {
    exists|q: int| 0 <= q < order.len() && order[q].1 as int == c
}

proof fn lemma_finish(
    bytes: Seq<u8>,
    tr: Seq<(usize, usize)>,
    mask: u32,
    order: Seq<(usize, usize)>,
    nb: int,
    top: Top3Triplets,
)
    requires
        1 <= nb <= 0x1_0000_0000,
        mask == (nb - 1) as u32,
        loop_inv(bytes, tr, mask, order, order.len() as int, top),
        forall|c: int| 0 <= c < nb ==> #[trigger] visits(order, c),
    ensures
        ranked(bytes, all_texts(bytes, tr), top),
        exact_top3(bytes, tr, top),
{
    let all = all_texts(bytes, tr);
    let ids = bucket_ids(bytes, tr, mask);
    assert forall|k: int| 0 <= k < all.len() implies occ(all, #[trigger] all[k]) <= top.gold.count && (on_podium(
        bytes,
        top,
        all[k],
    ) || occ(all, all[k]) <= top.bronze.count) && (first_at(all, k) ==> on_podium(bytes, top, all[k]) || !beats(bytes, 
        global_entry(bytes, tr, k),
        top.bronze,
    )) by {
        let h = hash_of(all[k]);
        assert(h & mask <= mask) by (bit_vector);
        let c = ids[k] as int;
        assert(visits(order, c));
        let q = choose|q: int| 0 <= q < order.len() && order[q].1 as int == c;
        assert(covered(bytes, tr, mask, order[q].1 as int, top.gold.count as int));
        assert(settled(bytes, tr, mask, order[q].1 as int, top));
        assert(settled_first(bytes, tr, mask, order[q].1 as int, top));
    }
}

/// Relies on slice::sort_unstable: the same elements, in ascending
/// lexicographic order of the pairs.
#[verifier::external_body]
fn sort_pairs(v: &mut Vec<(usize, usize)>)
    ensures
        final(v)@.to_multiset() == old(v)@.to_multiset(),
        forall|i: int, j: int|
            0 <= i < j < final(v)@.len() ==> final(v)@[i].0 < final(v)@[j].0 || (final(v)@[i].0
                == final(v)@[j].0 && final(v)@[i].1 <= final(v)@[j].1),
{
    v.sort_unstable();
}

/// Visits the buckets in `order`: the first one seeds the result, and each
/// later one is merged in unless it holds fewer triplets than bronze's count.
#[verifier::rlimit(100)]
fn rank_buckets(
    text_bytes: &Vec<u8>,
    trips: &Vec<(usize, usize)>,
    buckets: &Vec<Vec<usize>>,
    order: &Vec<(usize, usize)>,
    num_buckets: usize,
) -> (top: Top3Triplets)
    requires
        spans_valid(text_bytes@, trips@),
        trips@.len() <= u32::MAX,
        valid_bucket_count(num_buckets),
        buckets@.len() == num_buckets,
        forall|c: int| 0 <= c < num_buckets ==> (#[trigger] buckets@[c])@ == idx_in(
            bucket_ids(text_bytes@, trips@, (num_buckets - 1) as u32),
            c,
        ),
        order@.len() == num_buckets,
        forall|q: int| 0 <= q < order@.len() ==> (#[trigger] order@[q]).1 < num_buckets,
        order@.no_duplicates(),
        forall|q: int| 0 <= q < order@.len() ==> #[trigger] order@[q] == (
            (usize::MAX - buckets@[order@[q].1 as int]@.len()) as usize,
            order@[q].1,
        ),
        forall|c: int| 0 <= c < num_buckets ==> #[trigger] visits(order@, c),
    ensures
        ranked(text_bytes@, all_texts(text_bytes@, trips@), top),
        exact_top3(text_bytes@, trips@, top),
{
    let ghost bytes = text_bytes@;
    let ghost tr = trips@;
    let ghost all = all_texts(bytes, tr);
    let mask: u32 = (num_buckets - 1) as u32;
    let ghost ids = bucket_ids(bytes, tr, mask);
    let first = order[0].1;
    proof {
        lemma_idx_in(ids, first as int);
    }
    proof {
        lemma_no_overflow(bytes, tr, mask, first as int);
    }
    let mut top = match find_top3_triplets(text_bytes, trips, &buckets[first]) {
        Ok(t) => t,
        Err(_) => {
            return Top3Triplets::empty();
        },
    };
    proof {
        lemma_bucket_cover(bytes, tr, mask, first as int, top.gold.count as int);
        lemma_local_to_global(bytes, tr, mask, first as int, top.gold);
        lemma_local_to_global(bytes, tr, mask, first as int, top.silver);
        lemma_local_to_global(bytes, tr, mask, first as int, top.bronze);
        lemma_bucket_settle(bytes, tr, mask, first as int, top, top);
        if top.gold != crate::ranking::sentinel() {
            lemma_local_first(bytes, tr, mask, first as int, top.gold);
        }
        if top.silver != crate::ranking::sentinel() {
            lemma_local_first(bytes, tr, mask, first as int, top.silver);
        }
        if top.bronze != crate::ranking::sentinel() {
            lemma_local_first(bytes, tr, mask, first as int, top.bronze);
        }
        lemma_bucket_settle_first(bytes, tr, mask, first as int, top, top);
        assert(podium(top)[0] == top.gold && podium(top)[1] == top.silver && podium(top)[2] == top.bronze);
        assert forall|m: int| 0 <= m < 3 && occurs(#[trigger] podium(top)[m]) implies exists|q: int|
            0 <= q < 1 && (hash_of(entry_text(bytes, podium(top)[m])) & mask) as int == order@[q].1 as int by {
            assert((hash_of(entry_text(bytes, podium(top)[m])) & mask) as int == order@[0].1 as int);
        }
        assert(loop_inv(bytes, tr, mask, order@, 1, top));
    }
    let mut r: usize = 1;
    while r < order.len()
        invariant
            1 <= r <= order@.len(),
            order@.len() == num_buckets,
            buckets@.len() == num_buckets,
            valid_bucket_count(num_buckets),
            mask == (num_buckets - 1) as u32,
            spans_valid(bytes, tr),
            bytes == text_bytes@,
            tr == trips@,
            all == all_texts(bytes, tr),
            tr.len() <= u32::MAX,
            ids == bucket_ids(bytes, tr, mask),
            forall|c: int| 0 <= c < num_buckets ==> (#[trigger] buckets@[c])@ == idx_in(ids, c),
            forall|q: int| 0 <= q < order@.len() ==> (#[trigger] order@[q]).1 < num_buckets,
            order@.no_duplicates(),
            forall|q: int| 0 <= q < order@.len() ==> #[trigger] order@[q] == (
                (usize::MAX - buckets@[order@[q].1 as int]@.len()) as usize,
                order@[q].1,
            ),
            loop_inv(bytes, tr, mask, order@, r as int, top),
        decreases order@.len() - r,
    {
        let bi = order[r].1;
        let pop = buckets[bi].len();
        proof {
            lemma_idx_in(ids, bi as int);
            assert forall|q: int| 0 <= q < r implies order@[q].1 != order@[r as int].1 by {
                if order@[q].1 == bi {
                    assert(order@[q] == order@[r as int]);
                }
            }
        }
        let ghost before = top;
        if (pop as u32) < top.bronze.count {
            proof {
                lemma_skip_step(bytes, tr, mask, order@, r as int, top);
            }
        } else {
            proof {
                lemma_no_overflow(bytes, tr, mask, bi as int);
            }
            let local = match find_top3_triplets(text_bytes, trips, &buckets[bi]) {
                Ok(t) => t,
                Err(_) => {
                    return Top3Triplets::empty();
                },
            };
            top.merge(text_bytes, &local);
            proof {
                lemma_merge_step(bytes, tr, mask, order@, r as int, before, local, top);
            }
        }
        r = r + 1;
    }
    proof {
        lemma_finish(bytes, tr, mask, order@, num_buckets as int, top);
    }
    top
}

/// Ranks the triplets of a normalized text: buckets are visited from the most
/// populous down, and a bucket smaller than the current bronze count is skipped.
pub fn process_string_triplets(text: &NormalizedText, num_buckets: usize) -> (r: Result<
    Top3Triplets,
    CoreError,
>)
    requires
        text.wf(),
        valid_bucket_count(num_buckets),
    ensures
        r == Err::<Top3Triplets, CoreError>(CoreError::InsufficientInput) <==> text.token_count() < 3,
        r == Err::<Top3Triplets, CoreError>(CoreError::Overflow) <==> (text.token_count() >= 3
            && text.token_count() - 2 > u32::MAX),
        r is Ok ==> ranked(text.bytes@, triplets_of(text.tokens()), r->Ok_0),
        r is Ok ==> exact_top3(text.bytes@, window_spans(text), r->Ok_0),
        r is Ok ==> all_texts(text.bytes@, window_spans(text)) == triplets_of(text.tokens()),
{
    broadcast use vstd::seq_lib::group_to_multiset_ensures;

    let trips = match extract_triplets(text) {
        Ok(v) => v,
        Err(e) => {
            return Err(e);
        },
    };
    if trips.len() > 0xffff_ffffusize {
        return Err(CoreError::Overflow);
    }
    let ghost bytes = text.bytes@;
    let ghost tr = trips@;
    let ghost all = all_texts(bytes, tr);
    proof {
        assert(all =~= triplets_of(text.tokens()));
        assert(tr =~= window_spans(text));
    }
    let buckets = partition(&text.bytes, &trips, num_buckets);
    let mut order: Vec<(usize, usize)> = Vec::new();
    let mut b: usize = 0;
    while b < num_buckets
        invariant
            b <= num_buckets,
            buckets@.len() == num_buckets,
            order@ == Seq::new(b as nat, |c: int| ((usize::MAX - buckets@[c]@.len()) as usize, c as usize)),
        decreases num_buckets - b,
    {
        order.push((usize::MAX - buckets[b].len(), b));
        b = b + 1;
    }
    let ghost unsorted = order@;
    sort_pairs(&mut order);
    assert(order@.to_multiset().len() == unsorted.to_multiset().len());
    assert(order@.len() == num_buckets);
    assert forall|q: int| 0 <= q < order@.len() implies (#[trigger] order@[q]).1 < num_buckets by {
        assert(order@.to_multiset().count(order@[q]) > 0);
        assert(unsorted.to_multiset().count(order@[q]) > 0);
        assert(unsorted.contains(order@[q]));
    }
    proof {
        assert forall|q: int| 0 <= q < order@.len() implies #[trigger] order@[q] == (
            (usize::MAX - buckets@[order@[q].1 as int]@.len()) as usize,
            order@[q].1,
        ) by {
            assert(order@.to_multiset().count(order@[q]) > 0);
            assert(unsorted.to_multiset().count(order@[q]) > 0);
            assert(unsorted.contains(order@[q]));
            let c = choose|c: int| 0 <= c < unsorted.len() && unsorted[c] == order@[q];
        }
        assert forall|i: int, j: int| 0 <= i < unsorted.len() && 0 <= j < unsorted.len() && i != j implies unsorted[i]
            != unsorted[j] by {
            assert(unsorted[i].1 != unsorted[j].1);
        }
        assert(unsorted.no_duplicates());
        unsorted.lemma_multiset_has_no_duplicates();
        assert forall|x: (usize, usize)| order@.to_multiset().contains(x) implies order@.to_multiset().count(x) == 1 by {
            assert(unsorted.to_multiset().contains(x));
        }
        order@.lemma_multiset_has_no_duplicates_conv();
    }
    proof {
        assert forall|c: int| 0 <= c < num_buckets implies #[trigger] visits(order@, c) by {
            let pair = ((usize::MAX - buckets@[c]@.len()) as usize, c as usize);
            assert(unsorted[c] == pair);
            assert(unsorted.contains(pair));
            assert(unsorted.to_multiset().count(pair) > 0);
            assert(order@.to_multiset().count(pair) > 0);
            assert(order@.contains(pair));
            let q = choose|q: int| 0 <= q < order@.len() && order@[q] == pair;
            assert(order@[q].1 as int == c);
        }
    }
    let top = rank_buckets(&text.bytes, &trips, &buckets, &order, num_buckets);
    Ok(top)
}

proof fn lemma_slot_antisym(bytes: Seq<u8>, trips: Seq<(usize, usize)>, x: Triplet, y: Triplet)
    requires
        slot_ok(bytes, trips, x),
        slot_ok(bytes, trips, y),
        !beats(bytes, x, y),
        !beats(bytes, y, x),
    ensures
        x == y,
{
    if x != crate::ranking::sentinel() && y != crate::ranking::sentinel() {
        let all = all_texts(bytes, trips);
        let i = choose|i: int| 0 <= i < trips.len() && trips[i].0 == x.start && trips[i].1 == x.end && first_at(all, i);
        let j = choose|j: int| 0 <= j < trips.len() && trips[j].0 == y.start && trips[j].1 == y.end && first_at(all, j);
        assert(all[i] == entry_text(bytes, x));
        assert(all[j] == entry_text(bytes, y));
        assert(entry_text(bytes, x) == entry_text(bytes, y));
        if i < j {
            assert(all[i] != all[j]);
        } else if j < i {
            assert(all[j] != all[i]);
        }
    }
}

proof fn lemma_slot_le(bytes: Seq<u8>, trips: Seq<(usize, usize)>, a: Top3Triplets, b: Top3Triplets, m: int)
    requires
        exact_top3(bytes, trips, a),
        exact_top3(bytes, trips, b),
        0 <= m < 3,
        forall|m2: int| 0 <= m2 < m ==> podium(a)[m2] == podium(b)[m2],
    ensures
        !beats(bytes, podium(b)[m], podium(a)[m]),
{
    let pa = podium(a);
    let pb = podium(b);
    let all = all_texts(bytes, trips);
    let f = text_fn(bytes);
    assert(pa[0] == a.gold && pa[1] == a.silver && pa[2] == a.bronze);
    assert(pb[0] == b.gold && pb[1] == b.silver && pb[2] == b.bronze);
    let y = pb[m];
    if beats(bytes, y, pa[m]) {
        assert(slot_ok(bytes, trips, y));
        assert(slot_ok(bytes, trips, pa[m]));
        assert(y != crate::ranking::sentinel());
        let i = choose|i: int| 0 <= i < trips.len() && trips[i].0 == y.start && trips[i].1 == y.end && first_at(all, i);
        assert(all[i] == entry_text(bytes, y));
        lemma_global_entry_id(bytes, trips, y, i);
        assert(on_podium(bytes, a, all[i]) || !beats(bytes, y, a.bronze));
        if on_podium(bytes, a, all[i]) {
            let m3: int = if occurs(a.gold) && entry_text(bytes, a.gold) == all[i] {
                0
            } else if occurs(a.silver) && entry_text(bytes, a.silver) == all[i] {
                1
            } else {
                2
            };
            assert(occurs(pa[m3]) && entry_text(bytes, pa[m3]) == all[i]);
            lemma_global_entry_id(bytes, trips, pa[m3], i);
            if m3 < m {
                assert(pb[m3] == y);
                assert(f(pb[m3]) == f(pb[m]));
            }
        }
    }
}

/// A top three of the triplets is unique: two results that both meet
/// `exact_top3` on the same triplets are the same result. So ranking the
/// same text twice gives the same result, entries and order included.
pub proof fn lemma_exact_top3_unique(bytes: Seq<u8>, trips: Seq<(usize, usize)>, a: Top3Triplets, b: Top3Triplets)
    requires
        exact_top3(bytes, trips, a),
        exact_top3(bytes, trips, b),
    ensures
        a == b,
{
    assert(podium(a)[0] == a.gold && podium(a)[1] == a.silver && podium(a)[2] == a.bronze);
    assert(podium(b)[0] == b.gold && podium(b)[1] == b.silver && podium(b)[2] == b.bronze);
    lemma_slot_le(bytes, trips, a, b, 0);
    lemma_slot_le(bytes, trips, b, a, 0);
    lemma_slot_antisym(bytes, trips, a.gold, b.gold);
    lemma_slot_le(bytes, trips, a, b, 1);
    lemma_slot_le(bytes, trips, b, a, 1);
    lemma_slot_antisym(bytes, trips, a.silver, b.silver);
    lemma_slot_le(bytes, trips, a, b, 2);
    lemma_slot_le(bytes, trips, b, a, 2);
    lemma_slot_antisym(bytes, trips, a.bronze, b.bronze);
}

/// Ranking one normalized text twice gives the same result: whatever two
/// results `process_string_triplets` may return for it are equal.
pub proof fn lemma_ranking_idempotent(text: &NormalizedText, a: Top3Triplets, b: Top3Triplets)
    requires
        text.wf(),
        exact_top3(text.bytes@, window_spans(text), a),
        exact_top3(text.bytes@, window_spans(text), b),
    ensures
        a == b,
{
    lemma_exact_top3_unique(text.bytes@, window_spans(text), a, b);
}

/// The entry of each position for an exhaustive count: the first occurrence
/// of a text carries its total count, later occurrences the empty sentinel.
pub open spec fn exhaustive_entries(bytes: Seq<u8>, trips: Seq<(usize, usize)>) -> Seq<Triplet> {
    Seq::new(
        trips.len(),
        |i: int|
            if first_at(all_texts(bytes, trips), i) {
                global_entry(bytes, trips, i)
            } else {
                crate::ranking::sentinel()
            },
    )
}

/// The exhaustive ranking: every position's entry, inserted in text order,
/// with no buckets and no pruning.
pub open spec fn exhaustive_top3(bytes: Seq<u8>, trips: Seq<(usize, usize)>) -> Top3Triplets {
    rank_all(bytes, crate::ranking::empty_top3(), exhaustive_entries(bytes, trips))
}

proof fn lemma_exhaustive_exact(bytes: Seq<u8>, trips: Seq<(usize, usize)>)
    requires
        spans_valid(bytes, trips),
        trips.len() <= u32::MAX,
    ensures
        exact_top3(bytes, trips, exhaustive_top3(bytes, trips)),
{
    let all = all_texts(bytes, trips);
    let s = exhaustive_entries(bytes, trips);
    let e0 = crate::ranking::empty_top3();
    let r = exhaustive_top3(bytes, trips);
    let f = text_fn(bytes);
    assert forall|i: int| 0 <= i < s.len() && first_at(all, i) implies occ(all, #[trigger] all[i]) >= 1
        && occ(all, all[i]) <= u32::MAX by {
        lemma_occ_prefix(all, all[i], i + 1);
        lemma_occ_le_len(all, all[i]);
    }
    let good = |e: Triplet| slot_ok(bytes, trips, e);
    assert forall|k: int| 0 <= k < s.len() implies good(#[trigger] s[k]) by {
        if first_at(all, k) {
            assert(occ(all, all[k]) >= 1 && occ(all, all[k]) <= u32::MAX);
            assert(entry_text(bytes, s[k]) == all[k]);
        }
    }
    lemma_rank_members(bytes, e0, s, good);
    lemma_rank_keeps(bytes, e0, s);
    let u = podium(e0) + s;
    assert forall|i: int, j: int| 0 <= i < j < u.len() && occurs(#[trigger] u[i]) && occurs(#[trigger] u[j])
        implies f(u[i]) != f(u[j]) by {
        assert(i >= 3);
        assert(u[i] == s[i - 3] && u[j] == s[j - 3]);
        assert(first_at(all, i - 3) && first_at(all, j - 3));
        assert(entry_text(bytes, s[i - 3]) == all[i - 3]);
        assert(entry_text(bytes, s[j - 3]) == all[j - 3]);
    }
    lemma_rank_distinct(bytes, e0, s, f);
    assert forall|i: int| 0 <= i < trips.len() && first_at(all, i) implies on_podium(bytes, r, #[trigger] all[i])
        || !beats(bytes, global_entry(bytes, trips, i), r.bronze) by {
        assert(keeps(bytes, r, s[i]));
        assert(occ(all, all[i]) >= 1);
        assert(entry_text(bytes, s[i]) == all[i]);
    }
}

/// Pruning is sound: the bucketed, pruned ranking gives exactly the result of
/// the exhaustive count-and-rank over all triplets of the text.
pub proof fn lemma_pruned_equals_exhaustive(text: &NormalizedText, r: Top3Triplets)
    requires
        text.wf(),
        window_spans(text).len() <= u32::MAX,
        exact_top3(text.bytes@, window_spans(text), r),
    ensures
        r == exhaustive_top3(text.bytes@, window_spans(text)),
{
    let w = window_spans(text);
    assert forall|i: int| 0 <= i < w.len() implies (#[trigger] w[i]).0 < w[i].1 <= text.bytes@.len() by {
        assert(text.spans@[i].0 < text.spans@[i].1);
        assert(text.spans@[i].1 + 1 == text.spans@[i + 1].0);
        assert(text.spans@[i + 1].0 < text.spans@[i + 1].1);
        assert(text.spans@[i + 1].1 + 1 == text.spans@[i + 2].0);
        assert(text.spans@[i + 2].0 < text.spans@[i + 2].1 <= text.bytes@.len());
    }
    lemma_exhaustive_exact(text.bytes@, w);
    lemma_exact_top3_unique(text.bytes@, w, r, exhaustive_top3(text.bytes@, w));
}

} // verus!
