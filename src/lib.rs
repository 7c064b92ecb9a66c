pub mod normalize;
pub mod triplets;
pub mod lexorder;
pub mod ranking;
pub mod counting;
pub mod engine;
pub mod pipeline;

pub use normalize::{normalize_classified, sanitize_words, NormalizedText};
pub use triplets::{bucketize, extract_triplets, CoreError};
pub use ranking::{Triplet, Top3Triplets, find_top3triplets_from_hashmap};
pub use counting::find_top3_triplets;
pub use engine::process_string_triplets;
pub use pipeline::{rank_top_triplets, rank_top_triplets_with, CountEntry, Top3Result, NUM_BUCKETS};
