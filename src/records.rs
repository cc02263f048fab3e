use vstd::prelude::*;

verus! {

/// A per-subject, per-skill reputation record.
///
/// `score` is held in thousandths of a point (`0..=100_000` is `0.0..=100.0`);
/// `bucket` is the tier that the score falls in.
#[derive(Debug)]
pub struct ReputationBucket {
    pub id: String,
    pub partition_id: String,
    pub bucket: u32,
    pub skill_category: String,
    pub score: u32,
    pub evidence_count: u64,
    pub last_updated: u64,
    pub created_at: u64,
}

/// The mathematical value of a [`ReputationBucket`].
pub struct BucketView {
    pub id: Seq<char>,
    pub partition_id: Seq<char>,
    pub bucket: u32,
    pub skill_category: Seq<char>,
    pub score: u32,
    pub evidence_count: u64,
    pub last_updated: u64,
    pub created_at: u64,
}

impl View for ReputationBucket {
    type V = BucketView;

    open spec fn view(&self) -> BucketView {
        BucketView {
            id: self.id@,
            partition_id: self.partition_id@,
            bucket: self.bucket,
            skill_category: self.skill_category@,
            score: self.score,
            evidence_count: self.evidence_count,
            last_updated: self.last_updated,
            created_at: self.created_at,
        }
    }
}

impl ReputationBucket {
    /// A field-by-field copy.
    pub fn duplicate(&self) -> (r: Self)
        ensures
            r@ == self@,
    {
        ReputationBucket {
            id: self.id.clone(),
            partition_id: self.partition_id.clone(),
            bucket: self.bucket,
            skill_category: self.skill_category.clone(),
            score: self.score,
            evidence_count: self.evidence_count,
            last_updated: self.last_updated,
            created_at: self.created_at,
        }
    }
}

/// One weighted observation about a bucket; written once and never changed.
///
/// `weight` is held in thousandths. `bucket_id` is a plain reference by id:
/// the bucket it names need not exist.
#[derive(Debug)]
pub struct ReputationEvidence {
    pub id: String,
    pub bucket_id: String,
    pub evidence_type: String,
    pub evidence_data: String,
    pub weight: u32,
    pub verified: bool,
    pub created_at: u64,
}

/// The mathematical value of a [`ReputationEvidence`].
pub struct EvidenceView {
    pub id: Seq<char>,
    pub bucket_id: Seq<char>,
    pub evidence_type: Seq<char>,
    pub evidence_data: Seq<char>,
    pub weight: u32,
    pub verified: bool,
    pub created_at: u64,
}

impl View for ReputationEvidence {
    type V = EvidenceView;

    open spec fn view(&self) -> EvidenceView {
        EvidenceView {
            id: self.id@,
            bucket_id: self.bucket_id@,
            evidence_type: self.evidence_type@,
            evidence_data: self.evidence_data@,
            weight: self.weight,
            verified: self.verified,
            created_at: self.created_at,
        }
    }
}

impl ReputationEvidence {
    /// A field-by-field copy.
    pub fn duplicate(&self) -> (r: Self)
        ensures
            r@ == self@,
    {
        ReputationEvidence {
            id: self.id.clone(),
            bucket_id: self.bucket_id.clone(),
            evidence_type: self.evidence_type.clone(),
            evidence_data: self.evidence_data.clone(),
            weight: self.weight,
            verified: self.verified,
            created_at: self.created_at,
        }
    }
}

/// Asks for a new bucket; the initial score is in thousandths of a point.
#[derive(Debug)]
pub struct CreateReputationRequest {
    pub partition_id: String,
    pub skill_category: String,
    pub initial_score: Option<u32>,
}

/// Asks for a piece of evidence to be recorded; the weight is in thousandths.
#[derive(Debug)]
pub struct AddEvidenceRequest {
    pub bucket_id: String,
    pub evidence_type: String,
    pub evidence_data: String,
    pub weight: u32,
}

/// Outcome of a bucket operation: the bucket, or an error message.
#[derive(Debug)]
pub struct ReputationResponse {
    pub ok: bool,
    pub data: Option<ReputationBucket>,
    pub error: Option<String>,
}

/// Outcome of an evidence query: the matching records, or an error message.
#[derive(Debug)]
pub struct EvidenceResponse {
    pub ok: bool,
    pub data: Option<Vec<ReputationEvidence>>,
    pub error: Option<String>,
}

} // verus!
