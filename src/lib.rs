//! Reputation state kept per subject: score buckets backed by an append-only
//! evidence ledger, with deterministic scoring and tiering, a monotonic id
//! counter, and a bounded serialized form for buckets.
mod codec;
mod ids;
mod keys;
mod records;
mod score;
mod service;
mod store;

pub use keys::{bytes_lt, compare_keys, first_difference, key_lt, lemma_key_asymmetric, lemma_key_transitive};
pub use codec::{
    bucket_bytes, decode_bucket, decode_evidence, encode_bucket, encode_evidence, evidence_bytes, text_field, u32_le,
    u64_le,
};
pub use ids::{
    bucket_id, bucket_id_text, decimal_digits, digit_char, evidence_id, evidence_id_text, issued_after,
    lemma_ids_strictly_increase, IdGenerator,
};
pub use records::{
    AddEvidenceRequest, BucketView, CreateReputationRequest, EvidenceResponse, EvidenceView,
    ReputationBucket, ReputationEvidence, ReputationResponse,
};
pub use score::{
    calculate_bucket_from_score, calculate_initial_bucket, calculate_reputation_score, counts_for,
    evidence_views, lemma_score_is_scale_factor, lemma_tier_monotonic, score_of, tier_of, total_weight,
    weighted_total, EVIDENCE_SCALE_FACTOR, MAX_SCORE, SCORE_UNITS_PER_POINT,
};
pub use service::{carries_bucket, carries_error, error_text};
pub use store::{
    appended_evidence, bucket_encoded_len, bucket_views_of, created_bucket, encodes_buckets, encodes_evidence,
    evidence_fits, evidence_encoded_len, evidence_sorted, buckets_sorted, has_evidence_id, has_id, is_bucket_slot, is_evidence_slot, upsert_evidence,
    in_partition, lemma_partition_listing_gains_new_bucket, naming_bucket, reloads, rescored, upsert, utf8_len, valid_state,
    ReputationStore, StoreError, MAX_BUCKET_BYTES, MAX_EVIDENCE_BYTES,
};
