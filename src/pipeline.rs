use vstd::prelude::*;
use crate::normalize::{sanitize_words, byte_tokens};
use crate::triplets::{CoreError, triplets_of, window_spans};
use crate::ranking::{Triplet, Top3Triplets, beats, sentinel, podium, occurs, entry_text};
use crate::counting::{occ, counted, first_at, on_podium, text_fn, lemma_occ_exists};
use crate::engine::{process_string_triplets, valid_bucket_count, ranked, exact_top3, all_texts, global_entry};
use crate::lexorder::lex_lt;

verus! {

broadcast use crate::lexorder::group_lex;

/// The default number of buckets.
pub const NUM_BUCKETS: usize = 8192;

/// A triplet's text with its number of occurrences; the empty sentinel has
/// empty text and count 0.
#[derive(Debug, PartialEq, Eq)]
pub struct CountEntry {
    pub text: Vec<u8>,
    pub count: u32,
}

/// The ranked (gold, silver, bronze) result of the core.
#[derive(Debug, PartialEq, Eq)]
pub struct Top3Result {
    pub gold: CountEntry,
    pub silver: CountEntry,
    pub bronze: CountEntry,
}

/// An entry is the empty sentinel, or a triplet of `texts` with its exact count.
pub open spec fn entry_ok(texts: Seq<Seq<u8>>, e: CountEntry) -> bool {
    (e.text@.len() == 0 && e.count == 0) || (e.count >= 1 && e.count == occ(texts, e.text@))
}

/// `x` is the text of a non-empty entry of the result.
pub open spec fn in_result(r: Top3Result, x: Seq<u8>) -> bool {
    ||| (r.gold.count >= 1 && r.gold.text@ == x)
    ||| (r.silver.count >= 1 && r.silver.text@ == x)
    ||| (r.bronze.count >= 1 && r.bronze.text@ == x)
}

/// Two entries that are not both non-empty, or that hold different texts.
pub open spec fn apart(a: CountEntry, b: CountEntry) -> bool {
    a.count >= 1 && b.count >= 1 ==> a.text@ != b.text@
}

/// The result is the top three of `texts`, ranked by count and then by text:
/// exact counts, three different texts, no triplet more frequent than gold,
/// and no triplet left out that ranks above bronze.
pub open spec fn top3_ok(texts: Seq<Seq<u8>>, r: Top3Result) -> bool {
    &&& entry_ok(texts, r.gold)
    &&& entry_ok(texts, r.silver)
    &&& entry_ok(texts, r.bronze)
    &&& r.gold.count >= r.silver.count >= r.bronze.count
    &&& apart(r.gold, r.silver) && apart(r.gold, r.bronze) && apart(r.silver, r.bronze)
    &&& forall|k: int| 0 <= k < texts.len() ==> occ(texts, #[trigger] texts[k]) <= r.gold.count
    &&& forall|k: int|
        0 <= k < texts.len() ==> in_result(r, #[trigger] texts[k]) || occ(texts, texts[k])
            <= r.bronze.count
    &&& not_below(r.gold, r.silver) && not_below(r.silver, r.bronze)
    &&& forall|k: int|
        0 <= k < texts.len() && first_at(texts, k) ==> in_result(r, #[trigger] texts[k]) || occ(
            texts,
            texts[k],
        ) < r.bronze.count || (occ(texts, texts[k]) == r.bronze.count && !lex_lt(texts[k], r.bronze.text@))
}

/// `a` ranks at least as high as `b`: more occurrences, or as many and a
/// text that does not come after `b`'s.
pub open spec fn not_below(a: CountEntry, b: CountEntry) -> bool {
    a.count > b.count || (a.count == b.count && !lex_lt(b.text@, a.text@))
}

/// The triplets of a raw text, after normalization.
pub open spec fn text_triplets(raw: Seq<char>) -> Seq<Seq<u8>> {
    triplets_of(byte_tokens(raw))
}

/// Copies the bytes of a span.
fn copy_span(bytes: &Vec<u8>, start: usize, end: usize) -> (r: Vec<u8>)
    requires
        start <= end <= bytes@.len(),
    ensures
        r@ == bytes@.subrange(start as int, end as int),
{
    let mut out: Vec<u8> = Vec::new();
    let mut i: usize = start;
    while i < end
        invariant
            start <= i <= end <= bytes@.len(),
            out@ == bytes@.subrange(start as int, i as int),
        decreases end - i,
    {
        out.push(bytes[i]);
        i = i + 1;
        assert(out@ =~= bytes@.subrange(start as int, i as int));
    }
    out
}

fn to_entry(bytes: &Vec<u8>, t: Triplet) -> (r: CountEntry)
    requires
        t == sentinel() || t.start < t.end <= bytes@.len(),
    ensures
        r.count == t.count,
        t == sentinel() ==> r.text@.len() == 0,
        t != sentinel() ==> r.text@ == entry_text(bytes@, t),
{
    if t.start < t.end && t.end <= bytes.len() {
        CountEntry { text: copy_span(bytes, t.start, t.end), count: t.count }
    } else {
        CountEntry { text: Vec::new(), count: t.count }
    }
}

/// The entries copied out of a ranked result form a top three of `texts`.
proof fn lemma_result_ok(
    bytes: Seq<u8>,
    trips: Seq<(usize, usize)>,
    texts: Seq<Seq<u8>>,
    top: Top3Triplets,
    r: Top3Result,
)
    requires
        ranked(bytes, texts, top),
        r.gold.count == top.gold.count,
        r.silver.count == top.silver.count,
        r.bronze.count == top.bronze.count,
        top.gold == sentinel() ==> r.gold.text@.len() == 0,
        top.silver == sentinel() ==> r.silver.text@.len() == 0,
        top.bronze == sentinel() ==> r.bronze.text@.len() == 0,
        top.gold != sentinel() ==> r.gold.text@ == entry_text(bytes, top.gold),
        top.silver != sentinel() ==> r.silver.text@ == entry_text(bytes, top.silver),
        top.bronze != sentinel() ==> r.bronze.text@ == entry_text(bytes, top.bronze),
        exact_top3(bytes, trips, top),
        all_texts(bytes, trips) == texts,
    ensures
        top3_ok(texts, r),
{
    assert(r.gold.text@ =~= entry_text(bytes, top.gold));
    assert(r.silver.text@ =~= entry_text(bytes, top.silver));
    assert(r.bronze.text@ =~= entry_text(bytes, top.bronze));
    assert forall|k: int| 0 <= k < texts.len() && first_at(texts, k) implies in_result(r, #[trigger] texts[k]) || occ(
        texts,
        texts[k],
    ) < r.bronze.count || (occ(texts, texts[k]) == r.bronze.count && !lex_lt(texts[k], r.bronze.text@)) by {
        assert(occ(texts, texts[k]) <= top.gold.count);
        assert(entry_text(bytes, global_entry(bytes, trips, k)) == texts[k]);
        assert(on_podium(bytes, top, texts[k]) || !beats(bytes, global_entry(bytes, trips, k), top.bronze));
    }
    let f = text_fn(bytes);
    assert(counted(bytes, texts, top.gold));
    assert(counted(bytes, texts, top.silver));
    assert(counted(bytes, texts, top.bronze));
    assert(!beats(bytes, top.silver, top.gold) && !beats(bytes, top.bronze, top.silver));
    assert(podium(top)[0] == top.gold && podium(top)[1] == top.silver && podium(top)[2] == top.bronze);
    assert(occurs(top.gold) && occurs(top.silver) ==> f(top.gold) != f(top.silver));
    assert(occurs(top.gold) && occurs(top.bronze) ==> f(top.gold) != f(top.bronze));
    assert(occurs(top.silver) && occurs(top.bronze) ==> f(top.silver) != f(top.bronze));
    assert forall|k: int| 0 <= k < texts.len() implies in_result(r, #[trigger] texts[k]) || occ(texts, texts[k])
        <= r.bronze.count by {
        assert(on_podium(bytes, top, texts[k]) || occ(texts, texts[k]) <= top.bronze.count);
    }
}

/// Finds the three most frequent triplets of a raw text, with `num_buckets` buckets.
#[verifier::rlimit(60)]
pub fn rank_top_triplets_with(raw_text: &str, num_buckets: usize) -> (r: Result<Top3Result, CoreError>)
    requires
        valid_bucket_count(num_buckets),
    ensures
        r == Err::<Top3Result, CoreError>(CoreError::InsufficientInput) <==> byte_tokens(raw_text@).len() < 3,
        r == Err::<Top3Result, CoreError>(CoreError::Overflow) <==> (byte_tokens(raw_text@).len() >= 3
            && byte_tokens(raw_text@).len() - 2 > u32::MAX),
        r is Ok ==> top3_ok(text_triplets(raw_text@), r->Ok_0),
{
    let (text, _n) = sanitize_words(raw_text);
    let top = match process_string_triplets(&text, num_buckets) {
        Ok(t) => t,
        Err(e) => {
            return Err(e);
        },
    };
    let gold = to_entry(&text.bytes, top.gold);
    let silver = to_entry(&text.bytes, top.silver);
    let bronze = to_entry(&text.bytes, top.bronze);
    let r = Top3Result { gold, silver, bronze };
    proof {
        lemma_result_ok(text.bytes@, window_spans(&text), text_triplets(raw_text@), top, r);
    }
    Ok(r)
}

/// Finds the three most frequent triplets of a raw text.
pub fn rank_top_triplets(raw_text: &str) -> (r: Result<Top3Result, CoreError>)
    ensures
        r == Err::<Top3Result, CoreError>(CoreError::InsufficientInput) <==> byte_tokens(raw_text@).len() < 3,
        r == Err::<Top3Result, CoreError>(CoreError::Overflow) <==> (byte_tokens(raw_text@).len() >= 3
            && byte_tokens(raw_text@).len() - 2 > u32::MAX),
        r is Ok ==> top3_ok(text_triplets(raw_text@), r->Ok_0),
{
    assert(8192usize & 8191usize == 0) by (bit_vector);
    rank_top_triplets_with(raw_text, NUM_BUCKETS)
}

/// Any two results that are a top three of the same triplets agree on the
/// three counts: the pruned ranking gives the counts that an exhaustive
/// count-and-rank over all triplets gives, and running it again gives them again.
pub proof fn lemma_top3_counts_unique(texts: Seq<Seq<u8>>, a: Top3Result, b: Top3Result)
    requires
        top3_ok(texts, a),
        top3_ok(texts, b),
    ensures
        a.gold.count == b.gold.count,
        a.silver.count == b.silver.count,
        a.bronze.count == b.bronze.count,
{
    lemma_top3_bound(texts, a, b);
    lemma_top3_bound(texts, b, a);
}

proof fn lemma_in_texts(texts: Seq<Seq<u8>>, e: CountEntry) -> (k: int)
    requires
        entry_ok(texts, e),
        e.count >= 1,
    ensures
        0 <= k < texts.len(),
        texts[k] == e.text@,
{
    lemma_occ_exists(texts, e.text@);
    choose|k: int| 0 <= k < texts.len() && texts[k] == e.text@
}

proof fn lemma_top3_bound(texts: Seq<Seq<u8>>, a: Top3Result, b: Top3Result)
    requires
        top3_ok(texts, a),
        top3_ok(texts, b),
    ensures
        a.gold.count >= b.gold.count,
        a.silver.count >= b.silver.count,
        a.bronze.count >= b.bronze.count,
{
    if b.gold.count >= 1 {
        let k = lemma_in_texts(texts, b.gold);
        assert(occ(texts, texts[k]) <= a.gold.count);
    }
    if b.silver.count > a.silver.count {
        let kg = lemma_in_texts(texts, b.gold);
        let ks = lemma_in_texts(texts, b.silver);
        assert(in_result(a, texts[kg]) || occ(texts, texts[kg]) <= a.bronze.count);
        assert(in_result(a, texts[ks]) || occ(texts, texts[ks]) <= a.bronze.count);
    }
    if b.bronze.count > a.bronze.count {
        let kg = lemma_in_texts(texts, b.gold);
        let ks = lemma_in_texts(texts, b.silver);
        let kb = lemma_in_texts(texts, b.bronze);
        assert(in_result(a, texts[kg]) || occ(texts, texts[kg]) <= a.bronze.count);
        assert(in_result(a, texts[ks]) || occ(texts, texts[ks]) <= a.bronze.count);
        assert(in_result(a, texts[kb]) || occ(texts, texts[kb]) <= a.bronze.count);
    }
}

} // verus!
