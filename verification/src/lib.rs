//! Deterministic collection and statistics kernels.

pub mod text;
pub mod resource;
pub mod ledger;
pub mod probe;
pub mod seeded_hash;
pub mod codec;
pub mod identity;
pub mod seq_sum;
pub mod count_min;
pub mod degree_histogram;
pub mod exact_quantiles;
pub mod lex;
pub mod zone_map;
pub mod distinct;
pub mod sample_order;
pub mod bottom_k;
pub mod vec_alloc;
pub mod succinct;
pub mod hash_table;
pub mod levenshtein;
pub mod delta;
pub mod maintenance_log;
pub mod evidence;
