use crate::records::{
    AddEvidenceRequest, BucketView, CreateReputationRequest, EvidenceResponse, ReputationBucket,
    ReputationResponse,
};
use crate::score::evidence_views;
use crate::store::{
    appended_evidence, created_bucket, evidence_encoded_len, has_id, in_partition, naming_bucket,
    rescored, upsert, upsert_evidence, ReputationStore, StoreError, MAX_BUCKET_BYTES, MAX_EVIDENCE_BYTES, bucket_encoded_len,
};
use vstd::prelude::*;

verus! {

/// Whether `r` carries exactly bucket `b` and no error.
pub open spec fn carries_bucket(r: &ReputationResponse, b: BucketView) -> bool {
    &&& r.ok
    &&& r.data is Some
    &&& r.data->Some_0@ == b
    &&& r.error is None
}

/// Whether `r` carries no bucket and the error message `msg`.
pub open spec fn carries_error(r: &ReputationResponse, msg: Seq<char>) -> bool {
    &&& !r.ok
    &&& r.data is None
    &&& r.error is Some
    &&& r.error->Some_0@ == msg
}

/// The text reported for a failed store operation; `not_found` stands for
/// `NotFound`.
pub open spec fn error_text(e: StoreError, not_found: Seq<char>) -> Seq<char> {
    match e {
        StoreError::NotFound => not_found,
        StoreError::SizeExceeded => "Record exceeds its size bound"@,
        StoreError::SerializationError => "Stored record is malformed"@,
    }
}

fn error_string(e: StoreError, not_found: &str) -> (r: String)
    ensures
        r@ == error_text(e, not_found@),
{
    match e {
        StoreError::NotFound => not_found.to_owned(),
        StoreError::SizeExceeded => "Record exceeds its size bound".to_owned(),
        StoreError::SerializationError => "Stored record is malformed".to_owned(),
    }
}

fn bucket_response(res: Result<ReputationBucket, StoreError>, not_found: &str) -> (r: ReputationResponse)
    ensures
        match res {
            Ok(b) => carries_bucket(&r, b@),
            Err(e) => carries_error(&r, error_text(e, not_found@)),
        },
{
    match res {
        Ok(b) => ReputationResponse { ok: true, data: Some(b), error: None },
        Err(e) => ReputationResponse { ok: false, data: None, error: Some(error_string(e, not_found)) },
    }
}

impl ReputationStore {
    /// The first bucket of a partition, or an error message when it has none.
    pub fn get_reputation_bucket(&self, partition_id: String) -> (r: ReputationResponse)
        ensures
            in_partition(self.bucket_views(), partition_id@).len() == 0
                ==> carries_error(&r, "No reputation bucket found for this partition ID"@),
            in_partition(self.bucket_views(), partition_id@).len() > 0
                ==> carries_bucket(&r, in_partition(self.bucket_views(), partition_id@)[0]),
    {
        let res = self.find_by_partition(&partition_id);
        bucket_response(res, "No reputation bucket found for this partition ID")
    }

    /// Creates a bucket from a request at time `now`; see [`ReputationStore::create_bucket`].
    pub fn create_reputation_bucket(&mut self, request: CreateReputationRequest, now: u64) -> (r: ReputationResponse)
        requires
            old(self).wf(),
            old(self).last_id() < u64::MAX,
        ensures
            final(self).wf(),
            final(self).last_id() == old(self).last_id() + 1,
            final(self).evidence_views() == old(self).evidence_views(),
            ({
                let b = created_bucket(
                    final(self).last_id(),
                    request.partition_id@,
                    request.skill_category@,
                    request.initial_score,
                    now,
                );
                if bucket_encoded_len(b) <= MAX_BUCKET_BYTES {
                    &&& carries_bucket(&r, b)
                    &&& final(self).bucket_views() == upsert(old(self).bucket_views(), b)
                } else {
                    &&& carries_error(&r, error_text(StoreError::SizeExceeded, ""@))
                    &&& final(self).bucket_views() == old(self).bucket_views()
                }
            }),
    {
        let res = self.create_bucket(request.partition_id, request.skill_category, request.initial_score, now);
        bucket_response(res, "")
    }

    /// Records evidence from a request at time `now`; see [`ReputationStore::add_evidence`].
    pub fn add_reputation_evidence(&mut self, request: AddEvidenceRequest, now: u64) -> (r: ReputationResponse)
        requires
            old(self).wf(),
            old(self).last_id() < u64::MAX,
        ensures
            final(self).wf(),
            final(self).last_id() == old(self).last_id() + 1,
            ({
                let e = appended_evidence(
                    final(self).last_id(),
                    request.bucket_id@,
                    request.evidence_type@,
                    request.evidence_data@,
                    request.weight,
                    now,
                );
                if evidence_encoded_len(e) > MAX_EVIDENCE_BYTES {
                    &&& carries_error(&r, error_text(StoreError::SizeExceeded, ""@))
                    &&& final(self).bucket_views() == old(self).bucket_views()
                    &&& final(self).evidence_views() == old(self).evidence_views()
                } else {
                    &&& final(self).evidence_views() == upsert_evidence(old(self).evidence_views(), e)
                    &&& !has_id(old(self).bucket_views(), request.bucket_id@) ==> {
                        &&& carries_error(&r, "Reputation bucket not found"@)
                        &&& final(self).bucket_views() == old(self).bucket_views()
                    }
                    &&& forall|i: int| 0 <= i < old(self).bucket_views().len() && #[trigger] old(self).bucket_views()[i].id == request.bucket_id@ ==> {
                        let nb = rescored(old(self).bucket_views()[i], final(self).evidence_views(), now);
                        &&& carries_bucket(&r, nb)
                        &&& final(self).bucket_views() == old(self).bucket_views().update(i, nb)
                    }
                }
            }),
    {
        let res = self.add_evidence(request.bucket_id, request.evidence_type, request.evidence_data, request.weight, now);
        bucket_response(res, "Reputation bucket not found")
    }

    /// All evidence recorded for a bucket, in storage order.
    pub fn get_reputation_evidence(&self, bucket_id: String) -> (r: EvidenceResponse)
        ensures
            r.ok,
            r.error is None,
            r.data is Some,
            evidence_views(r.data->Some_0@) == naming_bucket(self.evidence_views(), bucket_id@),
    {
        let list = self.list_by_bucket(&bucket_id);
        EvidenceResponse { ok: true, data: Some(list), error: None }
    }

    /// All buckets of a partition, in storage order.
    pub fn get_partition_reputation(&self, partition_id: String) -> (r: Vec<ReputationBucket>)
        ensures
            r@.map_values(|b: ReputationBucket| b@) == in_partition(self.bucket_views(), partition_id@),
    {
        self.list_by_partition(&partition_id)
    }
}

} // verus!
