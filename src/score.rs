use crate::records::{EvidenceView, ReputationEvidence};
use vstd::prelude::*;

verus! {

/// Score units in one point: scores are held in thousandths.
pub const SCORE_UNITS_PER_POINT: u32 = 1000;

/// The highest score, 100 points.
pub const MAX_SCORE: u32 = 100_000;

/// Every unit of weight contributes this many points to the weighted sum.
pub const EVIDENCE_SCALE_FACTOR: u32 = 10;

/// The tier of a score (in thousandths of a point): thresholds 80, 60, 40 and
/// 20 points, checked from the highest down.
pub open spec fn tier_of(score: int) -> u32 {
    if score >= 80_000 {
        4
    } else if score >= 60_000 {
        3
    } else if score >= 40_000 {
        2
    } else if score >= 20_000 {
        1
    } else {
        0
    }
}

/// Whether an evidence record counts towards the score of bucket `bucket_id`.
pub open spec fn counts_for(e: EvidenceView, bucket_id: Seq<char>) -> bool {
    e.bucket_id == bucket_id && e.verified
}

/// Sum of the weights of the evidence that counts towards `bucket_id`.
pub open spec fn total_weight(ev: Seq<EvidenceView>, bucket_id: Seq<char>) -> int
    decreases ev.len(),
{
    if ev.len() == 0 {
        0
    } else {
        total_weight(ev.drop_last(), bucket_id) + if counts_for(ev.last(), bucket_id) {
            ev.last().weight as int
        } else {
            0
        }
    }
}

/// Sum of `weight * EVIDENCE_SCALE_FACTOR` over the evidence that counts
/// towards `bucket_id`.
pub open spec fn weighted_total(ev: Seq<EvidenceView>, bucket_id: Seq<char>) -> int
    decreases ev.len(),
{
    if ev.len() == 0 {
        0
    } else {
        weighted_total(ev.drop_last(), bucket_id) + if counts_for(ev.last(), bucket_id) {
            ev.last().weight as int * EVIDENCE_SCALE_FACTOR as int
        } else {
            0
        }
    }
}

/// The score of a bucket from its ledger: the weighted sum over the total
/// weight, clamped to `[0, MAX_SCORE]`; zero when the total weight is zero.
pub open spec fn score_of(ev: Seq<EvidenceView>, bucket_id: Seq<char>) -> int {
    let t = total_weight(ev, bucket_id);
    if t > 0 {
        let q = weighted_total(ev, bucket_id) * SCORE_UNITS_PER_POINT as int / t;
        if q > MAX_SCORE as int {
            MAX_SCORE as int
        } else if q < 0 {
            0
        } else {
            q
        }
    } else {
        0
    }
}

/// The views of a sequence of evidence records.
pub open spec fn evidence_views(ev: Seq<ReputationEvidence>) -> Seq<EvidenceView> {
    ev.map_values(|e: ReputationEvidence| e@)
}

/// The tier of a score given at creation.
pub fn calculate_initial_bucket(score: u32) -> (r: u32)
    ensures
        r == tier_of(score as int),
{
    if score >= 80_000 {
        4
    } else if score >= 60_000 {
        3
    } else if score >= 40_000 {
        2
    } else if score >= 20_000 {
        1
    } else {
        0
    }
}

/// The tier of a recomputed score.
pub fn calculate_bucket_from_score(score: u32) -> (r: u32)
    ensures
        r == tier_of(score as int),
{
    calculate_initial_bucket(score)
}

proof fn lemma_weighted_is_scaled_total(ev: Seq<EvidenceView>, bucket_id: Seq<char>)
    ensures
        weighted_total(ev, bucket_id) == EVIDENCE_SCALE_FACTOR as int * total_weight(ev, bucket_id),
        0 <= total_weight(ev, bucket_id) <= ev.len() * (u32::MAX as int),
    decreases ev.len(),
{
    if ev.len() > 0 {
        lemma_weighted_is_scaled_total(ev.drop_last(), bucket_id);
    }
}

/// Recomputes the score of bucket `bucket_id` from the whole ledger.
pub fn calculate_reputation_score(evidence: &Vec<ReputationEvidence>, bucket_id: &String) -> (r: u32)
    ensures
        r as int == score_of(evidence_views(evidence@), bucket_id@),
        r <= MAX_SCORE,
{
    let ghost views = evidence_views(evidence@);
    let mut total: u128 = 0;
    let mut weighted: u128 = 0;
    let mut i: usize = 0;
    while i < evidence.len()
        invariant
            i <= evidence.len(),
            views == evidence_views(evidence@),
            total as int == total_weight(views.take(i as int), bucket_id@),
            weighted as int == weighted_total(views.take(i as int), bucket_id@),
        decreases evidence.len() - i,
    {
        proof {
            assert(views.take(i as int + 1).drop_last() =~= views.take(i as int));
            lemma_weighted_is_scaled_total(views.take(i as int), bucket_id@);
            assert(i * (u32::MAX as int) <= usize::MAX as int * (u32::MAX as int)) by (nonlinear_arith)
                requires i <= usize::MAX;
        }
        let e = &evidence[i];
        if e.bucket_id == *bucket_id && e.verified {
            total = total + e.weight as u128;
            weighted = weighted + e.weight as u128 * 10;
        }
        i = i + 1;
    }
    proof {
        assert(views.take(i as int) =~= views);
        lemma_weighted_is_scaled_total(views, bucket_id@);
    }
    if total > 0 {
        let q: u128 = weighted * 1000 / total;
        if q > 100_000 {
            100_000
        } else {
            q as u32
        }
    } else {
        0
    }
}

/// The tier never decreases as the score grows, stays within `0..=4`, and
/// is constant between consecutive thresholds.
pub proof fn lemma_tier_monotonic(a: int, b: int)
    requires
        a <= b,
    ensures
        tier_of(a) <= tier_of(b),
        tier_of(b) <= 4,
        (b < 20_000 || (20_000 <= a && b < 40_000) || (40_000 <= a && b < 60_000)
            || (60_000 <= a && b < 80_000) || 80_000 <= a) ==> tier_of(a) == tier_of(b),
{
}

/// Whenever the evidence that counts towards a bucket has a positive total
/// weight, the score is exactly the scale factor, 10 points, whatever the
/// weights are; with no such weight it is zero.
pub proof fn lemma_score_is_scale_factor(ev: Seq<EvidenceView>, bucket_id: Seq<char>)
    ensures
        total_weight(ev, bucket_id) > 0 ==> score_of(ev, bucket_id) == EVIDENCE_SCALE_FACTOR as int * SCORE_UNITS_PER_POINT as int,
        total_weight(ev, bucket_id) <= 0 ==> score_of(ev, bucket_id) == 0,
{
    lemma_weighted_is_scaled_total(ev, bucket_id);
    let t = total_weight(ev, bucket_id);
    if t > 0 {
        assert((10 * t) * 1000 / t == 10000) by (nonlinear_arith)
            requires t > 0;
    }
}

} // verus!
