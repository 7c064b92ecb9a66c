use triplet_challenge::normalize::utf8_of;
use triplet_challenge::{
    bucketize, extract_triplets, normalize_classified, find_top3_triplets, find_top3triplets_from_hashmap,
    process_string_triplets, rank_top_triplets, rank_top_triplets_with, sanitize_words, CoreError,
    CountEntry, Top3Triplets, Triplet,
};

fn text_of(bytes: &[u8], span: (usize, usize)) -> String {
    String::from_utf8(bytes[span.0..span.1].to_vec()).unwrap()
}

fn tokens(s: &str) -> Vec<String> {
    let (t, _) = sanitize_words(s);
    t.spans.iter().map(|&sp| text_of(&t.bytes, sp)).collect()
}

fn entry(text: &str, count: u32) -> CountEntry {
    CountEntry { text: text.as_bytes().to_vec(), count }
}

#[test]
fn scenario_cat_sat() {
    let s = "the cat sat on the mat the cat sat";
    assert_eq!(
        tokens(s),
        vec!["the", "cat", "sat", "on", "the", "mat", "the", "cat", "sat"]
    );
    let (t, n) = sanitize_words(s);
    assert_eq!(n, 8);
    let spans = extract_triplets(&t).unwrap();
    assert_eq!(spans.len(), 7);
    let r = rank_top_triplets(s).unwrap();
    assert_eq!(r.gold, entry("the cat sat", 2));
    let singles = ["cat sat on", "sat on the", "on the mat", "the mat the", "mat the cat"];
    for e in [&r.silver, &r.bronze] {
        assert_eq!(e.count, 1);
        assert!(singles.contains(&String::from_utf8(e.text.clone()).unwrap().as_str()));
    }
    assert_ne!(r.silver, r.bronze);
    // ties go to the smaller text
    assert_eq!(r.silver, entry("cat sat on", 1));
    assert_eq!(r.bronze, entry("mat the cat", 1));
}

#[test]
fn empty_input_is_insufficient() {
    assert_eq!(rank_top_triplets(""), Err(CoreError::InsufficientInput));
    let (t, n) = sanitize_words("");
    assert_eq!(n, 0);
    assert!(t.bytes.is_empty());
}

#[test]
fn three_distinct_tokens() {
    let r = rank_top_triplets("alpha beta gamma").unwrap();
    assert_eq!(r.gold, entry("alpha beta gamma", 1));
    assert_eq!(r.silver, entry("", 0));
    assert_eq!(r.bronze, entry("", 0));
}

#[test]
fn fewer_than_three_tokens() {
    for s in ["", "   ", "one", "one two", "...one!!  two??", "-- -- --"] {
        assert_eq!(rank_top_triplets(s), Err(CoreError::InsufficientInput), "{s}");
    }
}

#[test]
fn triplet_count_is_tokens_minus_two() {
    for (s, n) in [("a b c", 3usize), ("a b c d", 4), ("x, y; z! w? v", 5), ("1 2 3 4 5 6 7 8 9 10", 10)] {
        let (t, k) = sanitize_words(s);
        assert_eq!(k, n - 1);
        assert_eq!(t.spans.len(), n);
        assert_eq!(extract_triplets(&t).unwrap().len(), n - 2);
    }
}

#[test]
fn triplet_spans_cover_three_tokens() {
    let (t, _) = sanitize_words("One,two   THREE four");
    let spans = extract_triplets(&t).unwrap();
    let texts: Vec<String> = spans.iter().map(|&sp| text_of(&t.bytes, sp)).collect();
    assert_eq!(texts, vec!["one two three", "two three four"]);
}

#[test]
fn normalization_folds_and_collapses() {
    let (t, n) = sanitize_words("  Hello, WORLD!! 42x  ");
    assert_eq!(String::from_utf8(t.bytes.clone()).unwrap(), "hello world 42x");
    assert_eq!(n, 2);
}

#[test]
fn normalization_keeps_other_alphabets() {
    let (t, n) = sanitize_words("Émile ÉTÉ über");
    assert_eq!(String::from_utf8(t.bytes.clone()).unwrap(), "Émile ÉtÉ über");
    assert_eq!(n, 2);
}

#[test]
fn normalized_text_is_fixed_point() {
    for s in ["the cat sat", "a", "", "x1 y2 z3 w4", "über café 9"] {
        let (t, _) = sanitize_words(s);
        assert_eq!(t.bytes, s.as_bytes().to_vec());
    }
}

#[test]
fn bucketize_exact_value() {
    assert_eq!(bucketize(b"the cat sat"), 2421398132);
    assert_eq!(bucketize(b"the cat sat") & 8191, 6772);
    assert_eq!(bucketize(b"x"), 1079518144);
}

#[test]
fn bucketize_depends_on_content_only() {
    let a = b"the cat sat".to_vec();
    let b = String::from("the cat sat").into_bytes();
    assert_eq!(bucketize(&a), bucketize(&b));
    let (t, _) = sanitize_words("the cat sat on the mat the cat sat");
    let spans = extract_triplets(&t).unwrap();
    let first = &t.bytes[spans[0].0..spans[0].1];
    let last = &t.bytes[spans[6].0..spans[6].1];
    assert_eq!(first, last);
    assert_eq!(bucketize(first), bucketize(last));
}

#[test]
fn core_is_idempotent() {
    let s = "a b c a b c a b d e f a b c d e f";
    let r1 = rank_top_triplets(s).unwrap();
    let r2 = rank_top_triplets(s).unwrap();
    assert_eq!(r1, r2);
}

fn brute_force(s: &str) -> Vec<u32> {
    let (t, _) = sanitize_words(s);
    let spans = extract_triplets(&t).unwrap();
    let texts: Vec<&[u8]> = spans.iter().map(|&sp| &t.bytes[sp.0..sp.1]).collect();
    let mut distinct: Vec<(&[u8], u32)> = Vec::new();
    for x in &texts {
        if let Some(e) = distinct.iter_mut().find(|e| e.0 == *x) {
            e.1 += 1;
        } else {
            distinct.push((x, 1));
        }
    }
    let mut counts: Vec<u32> = distinct.iter().map(|e| e.1).collect();
    counts.sort_unstable_by(|a, b| b.cmp(a));
    counts.resize(3, 0);
    counts.truncate(3);
    counts
}

#[test]
fn pruned_merge_matches_brute_force() {
    let inputs = [
        "the cat sat on the mat the cat sat",
        "a b c a b c a b c d e f d e f x y z",
        "one two three one two three one two three four five six four five six seven eight nine",
        "p q r s t u v w p q r s t u v w p q r",
    ];
    for s in inputs {
        for nb in [1usize, 2, 4, 8192] {
            let r = rank_top_triplets_with(s, nb).unwrap();
            assert_eq!(vec![r.gold.count, r.silver.count, r.bronze.count], brute_force(s), "{s} {nb}");
        }
    }
}

#[test]
fn insert_rule_ranks_by_count_then_text() {
    let bytes = b"bab aab ccc ddd".to_vec();
    let entries = vec![
        Triplet { start: 0, end: 3, count: 2 },
        Triplet { start: 4, end: 7, count: 2 },
        Triplet { start: 8, end: 11, count: 5 },
        Triplet { start: 12, end: 15, count: 1 },
    ];
    let r = find_top3triplets_from_hashmap(&bytes, &entries);
    assert_eq!(r.gold, entries[2]);
    assert_eq!(r.silver, entries[1]);
    assert_eq!(r.bronze, entries[0]);
}

#[test]
fn equal_counts_rank_by_text() {
    let r = rank_top_triplets("b a a b").unwrap();
    assert_eq!(r.gold, entry("a a b", 1));
    assert_eq!(r.silver, entry("b a a", 1));
    assert_eq!(r.bronze, entry("", 0));
}

#[test]
fn merge_keeps_best_three() {
    let bytes = b"aaaaa bbbbb ccccc ddddd".to_vec();
    let mut a = Top3Triplets {
        gold: Triplet { start: 0, end: 5, count: 4 },
        silver: Triplet { start: 6, end: 11, count: 2 },
        bronze: Triplet::new(),
    };
    let b = Top3Triplets {
        gold: Triplet { start: 12, end: 17, count: 3 },
        silver: Triplet { start: 18, end: 23, count: 1 },
        bronze: Triplet::new(),
    };
    a.merge(&bytes, &b);
    assert_eq!(a.gold.count, 4);
    assert_eq!(a.silver, Triplet { start: 12, end: 17, count: 3 });
    assert_eq!(a.bronze, Triplet { start: 6, end: 11, count: 2 });
}

#[test]
fn bucket_counting_is_exact() {
    let (t, _) = sanitize_words("x y z x y z x y z");
    let spans = extract_triplets(&t).unwrap();
    let items: Vec<usize> = (0..spans.len()).collect();
    let r = find_top3_triplets(&t.bytes, &spans, &items).unwrap();
    assert_eq!(text_of(&t.bytes, (r.gold.start, r.gold.end)), "x y z");
    assert_eq!(r.gold.count, 3);
    assert_eq!(r.silver.count, 2);
    assert_eq!(r.bronze.count, 2);
}

#[test]
fn process_reports_errors() {
    let (t, _) = sanitize_words("just two");
    assert_eq!(process_string_triplets(&t, 8192), Err(CoreError::InsufficientInput));
    let (t, _) = sanitize_words("now three words");
    let r = process_string_triplets(&t, 8192).unwrap();
    assert_eq!(r.gold.count, 1);
}

#[test]
fn single_distinct_triplet_leaves_empty_sentinels() {
    let r = rank_top_triplets("x x x x").unwrap();
    assert_eq!(r.gold, entry("x x x", 2));
    assert_eq!(r.silver, entry("", 0));
    assert_eq!(r.bronze, entry("", 0));
}

#[test]
fn small_bucket_counts_give_same_result() {
    let s = "b c d b c d a a a b c d a a a";
    let base = rank_top_triplets(s).unwrap();
    for nb in [1usize, 2, 16] {
        assert_eq!(rank_top_triplets_with(s, nb).unwrap(), base);
    }
    assert_eq!(base.gold, entry("b c d", 3));
}

#[test]
fn separator_counts() {
    for (s, out, n) in [
        ("the cat sat", "the cat sat", 2u32),
        ("Hello, World!", "hello world", 1),
        ("Ça Va", "Ça va", 1),
        ("word", "word", 0),
    ] {
        let (t, k) = sanitize_words(s);
        assert_eq!(String::from_utf8(t.bytes.clone()).unwrap(), out);
        assert_eq!(k as u32, n);
        assert_eq!(k, t.bytes.iter().filter(|&&b| b == b' ').count());
    }
}

#[test]
fn classified_normalization_follows_the_flags() {
    let cs: Vec<char> = "Hello, World!".chars().collect();
    let flags: Vec<bool> = cs.iter().map(|c| c.is_alphanumeric()).collect();
    let (t, n) = normalize_classified(&cs, &flags);
    assert_eq!(String::from_utf8(t.bytes.clone()).unwrap(), "hello world");
    assert_eq!(n, 1);
    let cs: Vec<char> = "a-b c".chars().collect();
    let flags = vec![true, true, true, false, true];
    let (t, n) = normalize_classified(&cs, &flags);
    assert_eq!(String::from_utf8(t.bytes.clone()).unwrap(), "a-b c");
    assert_eq!(n, 1);
}

#[test]
fn utf8_encoding_of_single_characters() {
    assert_eq!(utf8_of('a'), vec![0x61]);
    assert_eq!(utf8_of('é'), vec![0xC3, 0xA9]);
    assert_eq!(utf8_of('€'), vec![0xE2, 0x82, 0xAC]);
    assert_eq!(utf8_of('😀'), vec![0xF0, 0x9F, 0x98, 0x80]);
    for c in ['Z', 'ß', 'Ж', '中', '𝄞'] {
        let mut buf = [0u8; 4];
        assert_eq!(utf8_of(c), c.encode_utf8(&mut buf).as_bytes().to_vec());
    }
}
