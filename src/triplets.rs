use vstd::prelude::*;
use crate::normalize::{NormalizedText, SEP};

verus! {

/// Three tokens joined by single separators.
pub open spec fn join3(a: Seq<u8>, b: Seq<u8>, c: Seq<u8>) -> Seq<u8> {
    a + seq![SEP] + b + seq![SEP] + c
}

/// The triplets of a token sequence, one per window of three consecutive tokens.
pub open spec fn triplets_of(toks: Seq<Seq<u8>>) -> Seq<Seq<u8>> {
    if toks.len() < 3 {
        seq![]
    } else {
        Seq::new((toks.len() - 2) as nat, |i: int| join3(toks[i], toks[i + 1], toks[i + 2]))
    }
}

/// Why the core could not rank a text.
#[derive(Debug, Clone, Copy, PartialEq, Eq, Structural)]
pub enum CoreError {
    /// The text holds fewer than three tokens.
    InsufficientInput,
    /// An occurrence count would not fit its fixed width.
    Overflow,
}

/// The span of each window of three tokens.
pub open spec fn window_spans(text: &NormalizedText) -> Seq<(usize, usize)> {
    if text.spans@.len() < 3 {
        seq![]
    } else {
        Seq::new((text.spans@.len() - 2) as nat, |i: int| (text.spans@[i].0, text.spans@[i + 2].1))
    }
}

/// The spans of all triplets of a normalized text, in text order.
pub open spec fn triplet_spans_ok(text: &NormalizedText, v: Seq<(usize, usize)>) -> bool {
    &&& v.len() == triplets_of(text.tokens()).len()
    &&& forall|i: int| 0 <= i < v.len() ==> {
        &&& (#[trigger] v[i]).0 < v[i].1 <= text.bytes@.len()
        &&& v[i].0 == text.spans@[i].0
        &&& v[i].1 == text.spans@[i + 2].1
        &&& text.bytes@.subrange(v[i].0 as int, v[i].1 as int) == triplets_of(text.tokens())[i]
    }
}

proof fn lemma_window(text: &NormalizedText, i: int)
    requires
        text.wf(),
        0 <= i,
        i + 2 < text.spans@.len(),
    ensures
        text.bytes@.subrange(text.spans@[i].0 as int, text.spans@[i + 2].1 as int) == join3(
            text.tokens()[i],
            text.tokens()[i + 1],
            text.tokens()[i + 2],
        ),
{
    let s0 = text.spans@[i];
    let s1 = text.spans@[i + 1];
    let s2 = text.spans@[i + 2];
    assert(s0.1 + 1 == s1.0 && text.bytes@[s0.1 as int] == SEP);
    assert(s1.1 + 1 == s2.0 && text.bytes@[s1.1 as int] == SEP);
    assert(s0.0 < s0.1 <= text.bytes@.len());
    assert(s1.0 < s1.1 <= text.bytes@.len());
    assert(s2.0 < s2.1 <= text.bytes@.len());
    assert(text.bytes@.subrange(s0.0 as int, s2.1 as int) =~= join3(
        text.tokens()[i],
        text.tokens()[i + 1],
        text.tokens()[i + 2],
    ));
}

/// Slides a three-token window over the text and returns the span of each window.
pub fn extract_triplets(text: &NormalizedText) -> (r: Result<Vec<(usize, usize)>, CoreError>)
    requires
        text.wf(),
    ensures
        r is Err <==> text.token_count() < 3,
        r is Err ==> r == Err::<Vec<(usize, usize)>, CoreError>(CoreError::InsufficientInput),
        r is Ok ==> r->Ok_0@.len() == text.token_count() - 2,
        r is Ok ==> triplet_spans_ok(text, r->Ok_0@),
{
    let n = text.spans.len();
    if n < 3 {
        return Err(CoreError::InsufficientInput);
    }
    let mut out: Vec<(usize, usize)> = Vec::new();
    let mut i: usize = 0;
    while i + 2 < n
        invariant
            text.wf(),
            n == text.spans@.len(),
            n >= 3,
            0 <= i <= n - 2,
            out@.len() == i,
            forall|j: int| 0 <= j < i ==> {
                &&& (#[trigger] out@[j]).0 < out@[j].1 <= text.bytes@.len()
                &&& out@[j].0 == text.spans@[j].0
                &&& out@[j].1 == text.spans@[j + 2].1
                &&& text.bytes@.subrange(out@[j].0 as int, out@[j].1 as int) == triplets_of(
                    text.tokens(),
                )[j]
            },
        decreases n - i,
    {
        let start = text.spans[i].0;
        let end = text.spans[i + 2].1;
        proof {
            lemma_window(text, i as int);
            assert(text.spans@[i as int].0 < text.spans@[i as int].1);
            assert(text.spans@[i as int].1 + 1 == text.spans@[i + 1].0);
            assert(text.spans@[i + 1].1 + 1 == text.spans@[i + 2].0);
            assert(text.spans@[i + 2].0 < text.spans@[i + 2].1 <= text.bytes@.len());
        }
        out.push((start, end));
        i = i + 1;
    }
    Ok(out)
}

/// The odd constant the hash starts from.
pub const PRIME: u32 = 16777619;

/// Multiplication modulo 2^32.
pub open spec fn wrap_mul(a: u32, b: u32) -> u32 {
    ((a as int * b as int) % 0x1_0000_0000) as u32
}

/// The bucket hash of a non-empty byte string: its length, the first byte,
/// the middle byte and the last byte.
pub open spec fn hash_of(b: Seq<u8>) -> u32 {
    let len = b.len();
    let r0 = (len as u32) ^ PRIME;
    let r1 = wrap_mul(r0, b[0] as u32);
    let r2 = r1 ^ (b[(len - 1) / 2] as u32);
    wrap_mul(r2, b[len - 1] as u32)
}

/// Hashes a triplet's bytes; the result depends on those bytes alone.
pub fn bucketize(bytes: &[u8]) -> (r: u32)
    requires
        bytes@.len() > 0,
    ensures
        r == hash_of(bytes@),
{
    let len: usize = bytes.len();
    let mut result: u32 = (len as u32) ^ PRIME;
    result = result.wrapping_mul(bytes[0] as u32);
    result = result ^ (bytes[(len - 1) / 2] as u32);
    result = result.wrapping_mul(bytes[len - 1] as u32);
    result
}

/// Bucket hashing sees byte content only: equal triplets share a bucket.
pub proof fn lemma_bucket_determinism(a: Seq<u8>, b: Seq<u8>, mask: u32)
    requires
        a == b,
        a.len() > 0,
    ensures
        hash_of(a) & mask == hash_of(b) & mask,
{
}

} // verus!
