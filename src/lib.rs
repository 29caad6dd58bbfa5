//! Similarity detection between source-code submissions: tokenizing,
//! k-gram fingerprinting, winnowing, Jaccard scoring, a Rabin–Karp
//! substring matcher, project normalization and pairwise comparison.

pub mod algorithm;
pub mod fingerprint_set;
pub mod score;
pub mod text;
pub mod project_processor;
pub mod comparison_orchestrator;
pub mod rolling_hash;
