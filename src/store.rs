use crate::codec::{bucket_bytes, decode_bucket, decode_evidence, encode_bucket, encode_evidence, evidence_bytes, text_field};
use crate::keys::{compare_keys, key_lt, lemma_key_asymmetric, lemma_key_transitive};
use crate::ids::{bucket_id, bucket_id_text, evidence_id, evidence_id_text, IdGenerator};
use crate::records::{BucketView, EvidenceView, ReputationBucket, ReputationEvidence};
use crate::score::{calculate_bucket_from_score, calculate_initial_bucket, calculate_reputation_score, evidence_views, score_of, tier_of};
use vstd::prelude::*;
use vstd::utf8::encode_utf8;

verus! {

/// The largest serialized bucket, in bytes.
pub const MAX_BUCKET_BYTES: u64 = 1024;

/// The largest serialized evidence record, in bytes.
pub const MAX_EVIDENCE_BYTES: u64 = 2048;

/// Why a store operation failed.
#[derive(Debug, Clone, Copy, PartialEq, Eq, Structural)]
pub enum StoreError {
    /// No record with the requested key.
    NotFound,
    /// The record would serialize to more bytes than its bound.
    SizeExceeded,
    /// Stored bytes do not decode to a record.
    SerializationError,
}

/// Bytes in the UTF-8 form of a text.
pub open spec fn utf8_len(s: Seq<char>) -> int {
    encode_utf8(s).len() as int
}

/// Bytes in the serialized form of a bucket: three length-prefixed texts,
/// two 32-bit and three 64-bit integers.
pub open spec fn bucket_encoded_len(b: BucketView) -> int {
    44 + utf8_len(b.id) + utf8_len(b.partition_id) + utf8_len(b.skill_category)
}

/// Bytes in the serialized form of an evidence record: four length-prefixed
/// texts, a 32-bit weight, a flag byte and a 64-bit timestamp.
pub open spec fn evidence_encoded_len(e: EvidenceView) -> int {
    29 + utf8_len(e.id) + utf8_len(e.bucket_id) + utf8_len(e.evidence_type) + utf8_len(e.evidence_data)
}

/// The buckets of partition `p`, in storage order.
pub open spec fn in_partition(s: Seq<BucketView>, p: Seq<char>) -> Seq<BucketView>
    decreases s.len(),
{
    if s.len() == 0 {
        Seq::empty()
    } else if s.last().partition_id == p {
        in_partition(s.drop_last(), p).push(s.last())
    } else {
        in_partition(s.drop_last(), p)
    }
}

/// The evidence records that name `bucket_id`, in storage order.
pub open spec fn naming_bucket(ev: Seq<EvidenceView>, bucket_id: Seq<char>) -> Seq<EvidenceView>
    decreases ev.len(),
{
    if ev.len() == 0 {
        Seq::empty()
    } else if ev.last().bucket_id == bucket_id {
        naming_bucket(ev.drop_last(), bucket_id).push(ev.last())
    } else {
        naming_bucket(ev.drop_last(), bucket_id)
    }
}

/// Whether some bucket of `s` has id `id`.
pub open spec fn has_id(s: Seq<BucketView>, id: Seq<char>) -> bool {
    exists|i: int| 0 <= i < s.len() && s[i].id == id
}

/// Whether the buckets of `s` are in ascending key order of their ids.
pub open spec fn buckets_sorted(s: Seq<BucketView>) -> bool {
    forall|i: int, j: int| 0 <= i < j < s.len() ==> key_lt(#[trigger] s[i].id, #[trigger] s[j].id)
}

/// Whether a bucket with id `key` belongs at position `p` of `s`: after the
/// smaller ids and before the larger ones.
pub open spec fn is_bucket_slot(s: Seq<BucketView>, key: Seq<char>, p: int) -> bool {
    &&& 0 <= p <= s.len()
    &&& forall|k: int| 0 <= k < p ==> key_lt(#[trigger] s[k].id, key)
    &&& forall|k: int| p <= k < s.len() ==> key_lt(key, #[trigger] s[k].id)
}

/// `s` with `b` stored under its id: the bucket with that id replaced in
/// place, or `b` inserted at its place in key order when there is none.
pub open spec fn upsert(s: Seq<BucketView>, b: BucketView) -> Seq<BucketView> {
    if has_id(s, b.id) {
        s.update(choose|i: int| 0 <= i < s.len() && s[i].id == b.id, b)
    } else {
        s.insert(choose|p: int| is_bucket_slot(s, b.id, p), b)
    }
}

/// Whether some evidence record of `ev` has id `id`.
pub open spec fn has_evidence_id(ev: Seq<EvidenceView>, id: Seq<char>) -> bool {
    exists|i: int| 0 <= i < ev.len() && ev[i].id == id
}

/// Whether the records of `ev` are in ascending key order of their ids.
pub open spec fn evidence_sorted(ev: Seq<EvidenceView>) -> bool {
    forall|i: int, j: int| 0 <= i < j < ev.len() ==> key_lt(#[trigger] ev[i].id, #[trigger] ev[j].id)
}

/// Whether a record with id `key` belongs at position `p` of `ev`.
pub open spec fn is_evidence_slot(ev: Seq<EvidenceView>, key: Seq<char>, p: int) -> bool {
    &&& 0 <= p <= ev.len()
    &&& forall|k: int| 0 <= k < p ==> key_lt(#[trigger] ev[k].id, key)
    &&& forall|k: int| p <= k < ev.len() ==> key_lt(key, #[trigger] ev[k].id)
}

/// `ev` with `e` stored under its id: the record with that id replaced in
/// place, or `e` inserted at its place in key order when there is none.
pub open spec fn upsert_evidence(ev: Seq<EvidenceView>, e: EvidenceView) -> Seq<EvidenceView> {
    if has_evidence_id(ev, e.id) {
        ev.update(choose|i: int| 0 <= i < ev.len() && ev[i].id == e.id, e)
    } else {
        ev.insert(choose|p: int| is_evidence_slot(ev, e.id, p), e)
    }
}

proof fn lemma_bucket_slot_unique(s: Seq<BucketView>, key: Seq<char>, p: int, q: int)
    requires
        is_bucket_slot(s, key, p),
        is_bucket_slot(s, key, q),
    ensures
        p == q,
{
    if p < q {
        lemma_key_asymmetric(s[p].id, key);
    } else if q < p {
        lemma_key_asymmetric(s[q].id, key);
    }
}

proof fn lemma_evidence_slot_unique(ev: Seq<EvidenceView>, key: Seq<char>, p: int, q: int)
    requires
        is_evidence_slot(ev, key, p),
        is_evidence_slot(ev, key, q),
    ensures
        p == q,
{
    if p < q {
        lemma_key_asymmetric(ev[p].id, key);
    } else if q < p {
        lemma_key_asymmetric(ev[q].id, key);
    }
}

/// The bucket that creation makes.
pub open spec fn created_bucket(
    n: u64,
    partition_id: Seq<char>,
    skill_category: Seq<char>,
    initial_score: Option<u32>,
    now: u64,
) -> BucketView {
    let score = match initial_score {
        Some(s) => s,
        None => 0u32,
    };
    BucketView {
        id: bucket_id_text(n),
        partition_id,
        bucket: tier_of(score as int),
        skill_category,
        score,
        evidence_count: 0,
        last_updated: now,
        created_at: now,
    }
}

/// The evidence record that appending makes; it is always marked verified.
pub open spec fn appended_evidence(
    n: u64,
    bucket_id: Seq<char>,
    evidence_type: Seq<char>,
    evidence_data: Seq<char>,
    weight: u32,
    now: u64,
) -> EvidenceView {
    EvidenceView {
        id: evidence_id_text(n),
        bucket_id,
        evidence_type,
        evidence_data,
        weight,
        verified: true,
        created_at: now,
    }
}

/// Bucket `b` after one more evidence record, rescored over ledger `ev`.
pub open spec fn rescored(b: BucketView, ev: Seq<EvidenceView>, now: u64) -> BucketView {
    let score = score_of(ev, b.id) as u32;
    BucketView {
        evidence_count: if b.evidence_count < u64::MAX { (b.evidence_count + 1) as u64 } else { b.evidence_count },
        last_updated: now,
        score,
        bucket: tier_of(score as int),
        ..b
    }
}

/// Bytes in the UTF-8 form of `s`.
fn text_bytes(s: &String) -> (r: usize)
    ensures
        r == utf8_len(s@),
{
    s.as_str().as_bytes().len()
}

/// Listing a prefix of the store gives a prefix of the full listing.
proof fn lemma_listing_prefix(s: Seq<BucketView>, p: Seq<char>, j: int)
    requires
        0 <= j <= s.len(),
    ensures
        in_partition(s.take(j), p).len() <= in_partition(s, p).len(),
        in_partition(s.take(j), p) == in_partition(s, p).take(in_partition(s.take(j), p).len() as int),
    decreases s.len(),
{
    if j == s.len() {
        assert(s.take(j) =~= s);
        assert(in_partition(s, p).take(in_partition(s, p).len() as int) =~= in_partition(s, p));
    } else {
        assert(s.take(j) =~= s.drop_last().take(j));
        lemma_listing_prefix(s.drop_last(), p, j);
        let a = in_partition(s.take(j), p);
        let m = in_partition(s.drop_last(), p);
        assert(m.take(a.len() as int) == a);
        if s.last().partition_id == p {
            assert(m.push(s.last()).take(a.len() as int) =~= m.take(a.len() as int));
        }
    }
}

proof fn lemma_listing_insert(s: Seq<BucketView>, p: Seq<char>, q: int, b: BucketView)
    requires
        0 <= q <= s.len(),
        b.partition_id == p,
    ensures
        in_partition(s.insert(q, b), p) == in_partition(s, p).insert(in_partition(s.take(q), p).len() as int, b),
        in_partition(s.take(q), p).len() <= in_partition(s, p).len(),
    decreases s.len(),
{
    lemma_listing_prefix(s, p, q);
    if q == s.len() {
        assert(s.insert(q, b) =~= s.push(b));
        assert(s.take(q) =~= s);
        assert(s.push(b).drop_last() =~= s);
        assert(in_partition(s, p).insert(in_partition(s, p).len() as int, b) =~= in_partition(s, p).push(b));
    } else {
        let t = s.insert(q, b);
        assert(t.drop_last() =~= s.drop_last().insert(q, b));
        assert(t.last() == s.last());
        assert(s.drop_last().take(q) =~= s.take(q));
        lemma_listing_insert(s.drop_last(), p, q, b);
        let r = in_partition(s.take(q), p).len() as int;
        let m = in_partition(s.drop_last(), p);
        if s.last().partition_id == p {
            assert(m.insert(r, b).push(s.last()) =~= m.push(s.last()).insert(r, b));
        }
    }
}

/// Storing a bucket of partition `p` under a new id adds exactly that bucket
/// to the listing of `p`, at its place in key order: no bucket of `p` is lost
/// or repeated. (Every new id has such a place in a store's key order; see
/// [`ReputationStore::create_bucket`].)
pub proof fn lemma_partition_listing_gains_new_bucket(s: Seq<BucketView>, p: Seq<char>, b: BucketView)
    requires
        b.partition_id == p,
        !has_id(s, b.id),
        exists|q: int| is_bucket_slot(s, b.id, q),
    ensures
        exists|r: int|
            0 <= r <= in_partition(s, p).len() && in_partition(upsert(s, b), p) == #[trigger] in_partition(s, p).insert(r, b),
{
    let q = choose|q: int| is_bucket_slot(s, b.id, q);
    lemma_listing_insert(s, p, q, b);
    let r = in_partition(s.take(q), p).len() as int;
    assert(in_partition(upsert(s, b), p) == in_partition(s, p).insert(r, b));
}

/// Whether buckets `bv` and ledger `ev` can be the contents of a store: bucket
/// both kept in ascending key order of their ids (so each id at most once),
/// each tier matching its score, and each record within its size bound.
pub open spec fn valid_state(bv: Seq<BucketView>, ev: Seq<EvidenceView>) -> bool {
    &&& buckets_sorted(bv)
    &&& forall|i: int, j: int| 0 <= i < bv.len() && 0 <= j < bv.len() && bv[i].id == bv[j].id ==> i == j
    &&& forall|i: int| 0 <= i < bv.len() ==> #[trigger] bv[i].bucket == tier_of(bv[i].score as int)
    &&& forall|i: int| 0 <= i < bv.len() ==> bucket_encoded_len(#[trigger] bv[i]) <= MAX_BUCKET_BYTES
    &&& evidence_sorted(ev)
    &&& forall|i: int| 0 <= i < ev.len() ==> evidence_encoded_len(#[trigger] ev[i]) <= MAX_EVIDENCE_BYTES
}

/// Whether persisted `buckets` and `evidence` are the serialized forms of
/// buckets `bv` and ledger `ev`, which together can be a store's contents.
pub open spec fn reloads(buckets: Seq<Vec<u8>>, evidence: Seq<Vec<u8>>, bv: Seq<BucketView>, ev: Seq<EvidenceView>) -> bool {
    encodes_buckets(buckets, bv) && encodes_evidence(evidence, ev) && valid_state(bv, ev)
}

/// Whether `bytes` holds, one for one, the serialized forms of buckets `bv`.
pub open spec fn encodes_buckets(bytes: Seq<Vec<u8>>, bv: Seq<BucketView>) -> bool {
    &&& bytes.len() == bv.len()
    &&& forall|i: int| 0 <= i < bv.len() ==> (#[trigger] bytes[i])@ == bucket_bytes(bv[i])
}

/// Whether `bytes` holds, one for one, the serialized forms of records `ev`.
pub open spec fn encodes_evidence(bytes: Seq<Vec<u8>>, ev: Seq<EvidenceView>) -> bool {
    &&& bytes.len() == ev.len()
    &&& forall|i: int| 0 <= i < ev.len() ==> (#[trigger] bytes[i])@ == evidence_bytes(ev[i])
}

proof fn lemma_text_field_len(s: Seq<char>)
    ensures
        text_field(s).len() == 4 + utf8_len(s),
{
}

proof fn lemma_bucket_bytes_len(b: BucketView)
    ensures
        bucket_bytes(b).len() == bucket_encoded_len(b),
{
    lemma_text_field_len(b.id);
    lemma_text_field_len(b.partition_id);
    lemma_text_field_len(b.skill_category);
}

proof fn lemma_evidence_bytes_len(e: EvidenceView)
    ensures
        evidence_bytes(e).len() == evidence_encoded_len(e),
{
    lemma_text_field_len(e.id);
    lemma_text_field_len(e.bucket_id);
    lemma_text_field_len(e.evidence_type);
    lemma_text_field_len(e.evidence_data);
}

/// Whether every record of `ev` is within its size bound.
pub open spec fn evidence_fits(ev: Seq<EvidenceView>) -> bool {
    forall|i: int| 0 <= i < ev.len() ==> evidence_encoded_len(#[trigger] ev[i]) <= MAX_EVIDENCE_BYTES
}

/// Decodes a persisted ledger: the records that `bytes` holds, or
/// `SerializationError` when some entry is not a record within its bound.
#[verifier::spinoff_prover]
#[verifier::rlimit(80)]
fn decode_ledger(bytes: &Vec<Vec<u8>>) -> (r: Result<Vec<ReputationEvidence>, StoreError>)
    ensures
        r is Ok ==> encodes_evidence(bytes@, evidence_views(r->Ok_0@)) && evidence_fits(evidence_views(r->Ok_0@))
            && evidence_sorted(evidence_views(r->Ok_0@)),
        r is Err ==> r->Err_0 == StoreError::SerializationError,
        forall|ev: Seq<EvidenceView>| #[trigger] encodes_evidence(bytes@, ev) && evidence_fits(ev) && evidence_sorted(ev)
            ==> r is Ok && evidence_views(r->Ok_0@) == ev,
{
    let mut out: Vec<ReputationEvidence> = Vec::new();
    let mut i: usize = 0;
    while i < bytes.len()
        invariant
            i <= bytes@.len(),
            out@.len() == i,
            forall|k: int| 0 <= k < i ==> evidence_bytes((#[trigger] out@[k])@) == bytes@[k]@
                && evidence_encoded_len(out@[k]@) <= MAX_EVIDENCE_BYTES,
            evidence_sorted(evidence_views(out@)),
            forall|ev: Seq<EvidenceView>| #[trigger] encodes_evidence(bytes@, ev) && evidence_fits(ev) && evidence_sorted(ev)
                ==> evidence_views(out@) == ev.take(i as int),
        decreases bytes@.len() - i,
    {
        let ghost prev = out@;
        if bytes[i].len() > MAX_EVIDENCE_BYTES as usize {
            proof {
                assert forall|ev: Seq<EvidenceView>| #[trigger] encodes_evidence(bytes@, ev) && evidence_fits(ev) && evidence_sorted(ev) implies false by {
                    assert(bytes@[i as int]@ == evidence_bytes(ev[i as int]));
                    lemma_evidence_bytes_len(ev[i as int]);
                }
            }
            return Err(StoreError::SerializationError);
        }
        match decode_evidence(&bytes[i]) {
            Ok(e) => {
                proof {
                    lemma_evidence_bytes_len(e@);
                }
                let ordered = if i == 0 { true } else { compare_keys(&out[i - 1].id, &e.id) < 0 };
                if !ordered {
                    proof {
                        assert forall|ev: Seq<EvidenceView>| #[trigger] encodes_evidence(bytes@, ev) && evidence_fits(ev) && evidence_sorted(ev) implies false by {
                            assert(bytes@[i as int]@ == evidence_bytes(ev[i as int]));
                            assert(evidence_encoded_len(ev[i as int]) <= MAX_EVIDENCE_BYTES);
                            assert(evidence_views(prev) == ev.take(i as int));
                            assert(evidence_views(prev)[i - 1] == prev[i - 1]@);
                            assert(key_lt(ev[i - 1].id, ev[i as int].id));
                        }
                    }
                    return Err(StoreError::SerializationError);
                }
                out.push(e);
                proof {
                    assert forall|ev: Seq<EvidenceView>| #[trigger] encodes_evidence(bytes@, ev) && evidence_fits(ev) && evidence_sorted(ev) implies evidence_views(out@) == ev.take(i + 1) by {
                        assert(bytes@[i as int]@ == evidence_bytes(ev[i as int]));
                        assert(evidence_encoded_len(ev[i as int]) <= MAX_EVIDENCE_BYTES);
                        assert(evidence_views(prev) == ev.take(i as int));
                        assert(evidence_views(out@) =~= ev.take(i + 1));
                    }
                    let nv = evidence_views(out@);
                    let pv = evidence_views(prev);
                    assert(nv =~= pv.push(e@));
                    assert forall|x: int, y: int| 0 <= x < y < nv.len() implies key_lt(#[trigger] nv[x].id, #[trigger] nv[y].id) by {
                        if y < i {
                            assert(nv[x] == pv[x] && nv[y] == pv[y]);
                        } else {
                            assert(pv[i - 1] == prev[i - 1]@);
                            if x < i - 1 {
                                assert(nv[x] == pv[x] && nv[i - 1] == pv[i - 1]);
                                lemma_key_transitive(nv[x].id, nv[i - 1].id, nv[y].id);
                            }
                        }
                    }
                    assert forall|k: int| 0 <= k < i + 1 implies evidence_bytes((#[trigger] out@[k])@) == bytes@[k]@
                        && evidence_encoded_len(out@[k]@) <= MAX_EVIDENCE_BYTES by {
                        if k < i {
                            assert(out@[k] == prev[k]);
                        }
                    }
                }
            },
            Err(_) => {
                proof {
                    assert forall|ev: Seq<EvidenceView>| #[trigger] encodes_evidence(bytes@, ev) && evidence_fits(ev) && evidence_sorted(ev) implies false by {
                        assert(bytes@[i as int]@ == evidence_bytes(ev[i as int]));
                        assert(evidence_encoded_len(ev[i as int]) <= MAX_EVIDENCE_BYTES);
                    }
                }
                return Err(StoreError::SerializationError);
            },
        }
        i = i + 1;
    }
    proof {
        assert forall|ev: Seq<EvidenceView>| #[trigger] encodes_evidence(bytes@, ev) && evidence_fits(ev) && evidence_sorted(ev) implies evidence_views(out@) == ev by {
            assert(ev.take(i as int) =~= ev);
        }
        let v = evidence_views(out@);
        assert forall|k: int| 0 <= k < v.len() implies (#[trigger] bytes@[k])@ == evidence_bytes(v[k]) by {
            assert(evidence_bytes(out@[k]@) == bytes@[k]@);
        }
        assert forall|k: int| 0 <= k < v.len() implies evidence_encoded_len(#[trigger] v[k]) <= MAX_EVIDENCE_BYTES by {
            assert(evidence_encoded_len(out@[k]@) <= MAX_EVIDENCE_BYTES);
        }
    }
    Ok(out)
}

/// The views of a sequence of buckets.
pub open spec fn bucket_views_of(v: Seq<ReputationBucket>) -> Seq<BucketView> {
    v.map_values(|b: ReputationBucket| b@)
}

/// Decodes persisted buckets against ledger `evidence`: the buckets that
/// `bytes` holds, or `SerializationError` when some entry is not a bucket
/// within its bound or the buckets could not be the contents of a store.
#[verifier::rlimit(40)]
fn decode_buckets(bytes: &Vec<Vec<u8>>, evidence: &Vec<ReputationEvidence>) -> (r: Result<Vec<ReputationBucket>, StoreError>)
    requires
        evidence_fits(evidence_views(evidence@)),
        evidence_sorted(evidence_views(evidence@)),
    ensures
        r is Ok ==> encodes_buckets(bytes@, bucket_views_of(r->Ok_0@))
            && valid_state(bucket_views_of(r->Ok_0@), evidence_views(evidence@)),
        r is Err ==> r->Err_0 == StoreError::SerializationError,
        forall|bv: Seq<BucketView>| #[trigger] encodes_buckets(bytes@, bv) && valid_state(bv, evidence_views(evidence@))
            ==> r is Ok && bucket_views_of(r->Ok_0@) == bv,
{
    let ghost evv = evidence_views(evidence@);
    let mut out: Vec<ReputationBucket> = Vec::new();
    let mut i: usize = 0;
    while i < bytes.len()
        invariant
            i <= bytes@.len(),
            out@.len() == i,
            evv == evidence_views(evidence@),
            evidence_fits(evv),
            evidence_sorted(evv),
            forall|k: int| 0 <= k < i ==> bucket_bytes((#[trigger] out@[k])@) == bytes@[k]@,
            valid_state(bucket_views_of(out@), evv),
            forall|bv: Seq<BucketView>| #[trigger] encodes_buckets(bytes@, bv) && valid_state(bv, evv)
                ==> bucket_views_of(out@) == bv.take(i as int),
        decreases bytes@.len() - i,
    {
        let ghost prev = out@;
        let ghost pv = bucket_views_of(prev);
        if bytes[i].len() > MAX_BUCKET_BYTES as usize {
            proof {
                assert forall|bv: Seq<BucketView>| #[trigger] encodes_buckets(bytes@, bv) && valid_state(bv, evv) implies false by {
                    assert(bytes@[i as int]@ == bucket_bytes(bv[i as int]));
                    lemma_bucket_bytes_len(bv[i as int]);
                }
            }
            return Err(StoreError::SerializationError);
        }
        let b = match decode_bucket(&bytes[i]) {
            Ok(b) => b,
            Err(_) => {
                proof {
                    assert forall|bv: Seq<BucketView>| #[trigger] encodes_buckets(bytes@, bv) && valid_state(bv, evv) implies false by {
                        assert(bytes@[i as int]@ == bucket_bytes(bv[i as int]));
                        assert(bucket_encoded_len(bv[i as int]) <= MAX_BUCKET_BYTES);
                    }
                }
                return Err(StoreError::SerializationError);
            },
        };
        proof {
            lemma_bucket_bytes_len(b@);
            assert forall|bv: Seq<BucketView>| #[trigger] encodes_buckets(bytes@, bv) && valid_state(bv, evv) implies bv[i as int] == b@ by {
                assert(bytes@[i as int]@ == bucket_bytes(bv[i as int]));
                assert(bucket_encoded_len(bv[i as int]) <= MAX_BUCKET_BYTES);
            }
        }
        let ordered = if i == 0 { true } else { compare_keys(&out[i - 1].id, &b.id) < 0 };
        if b.bucket != calculate_bucket_from_score(b.score) || !ordered {
            proof {
                assert forall|bv: Seq<BucketView>| #[trigger] encodes_buckets(bytes@, bv) && valid_state(bv, evv) implies false by {
                    assert(bv[i as int] == b@);
                    assert(pv == bv.take(i as int));
                    if i > 0 {
                        assert(pv[i - 1] == prev[i - 1]@);
                        assert(bv[i - 1] == pv[i - 1]);
                        assert(key_lt(bv[i - 1].id, bv[i as int].id));
                    }
                }
            }
            return Err(StoreError::SerializationError);
        }
        out.push(b);
        proof {
            let nv = bucket_views_of(out@);
            assert(nv =~= pv.push(b@));
            assert forall|bv: Seq<BucketView>| #[trigger] encodes_buckets(bytes@, bv) && valid_state(bv, evv) implies nv == bv.take(i + 1) by {
                assert(pv == bv.take(i as int));
                assert(nv =~= bv.take(i + 1));
            }
            assert forall|k: int| 0 <= k < i + 1 implies bucket_bytes((#[trigger] out@[k])@) == bytes@[k]@ by {
                if k < i {
                    assert(out@[k] == prev[k]);
                }
            }
            assert forall|x: int, y: int| 0 <= x < y < nv.len() implies key_lt(#[trigger] nv[x].id, #[trigger] nv[y].id) by {
                if y < i {
                    assert(nv[x] == pv[x] && nv[y] == pv[y]);
                } else {
                    assert(nv[i - 1] == prev[i - 1]@);
                    if x < i - 1 {
                        assert(nv[x] == pv[x] && nv[i - 1] == pv[i - 1]);
                        lemma_key_transitive(nv[x].id, nv[i - 1].id, nv[y].id);
                    }
                }
            }
            assert forall|x: int, y: int| 0 <= x < nv.len() && 0 <= y < nv.len() && nv[x].id == nv[y].id implies x == y by {
                if x < y {
                    lemma_key_asymmetric(nv[x].id, nv[y].id);
                } else if y < x {
                    lemma_key_asymmetric(nv[y].id, nv[x].id);
                }
            }
        }
        i = i + 1;
    }
    proof {
        assert forall|bv: Seq<BucketView>| #[trigger] encodes_buckets(bytes@, bv) && valid_state(bv, evv) implies bucket_views_of(out@) == bv by {
            assert(bv.take(i as int) =~= bv);
        }
        let v = bucket_views_of(out@);
        assert forall|k: int| 0 <= k < v.len() implies (#[trigger] bytes@[k])@ == bucket_bytes(v[k]) by {
            assert(bucket_bytes(out@[k]@) == bytes@[k]@);
        }
    }
    Ok(out)
}

/// The two record stores and the counter that mints their ids.
///
/// Buckets are keyed by id (each id at most once); every bucket's tier matches
/// its score, its serialized form fits its bound, and its evidence count never
/// exceeds the evidence records that name it.
pub struct ReputationStore {
    ids: IdGenerator,
    buckets: Vec<ReputationBucket>,
    evidence: Vec<ReputationEvidence>,
}

impl ReputationStore {
    /// The buckets, in storage order.
    pub closed spec fn bucket_views(&self) -> Seq<BucketView> {
        bucket_views_of(self.buckets@)
    }

    /// The evidence ledger, in storage order.
    pub closed spec fn evidence_views(&self) -> Seq<EvidenceView> {
        evidence_views(self.evidence@)
    }

    /// The last number the id counter issued.
    pub closed spec fn last_id(&self) -> u64 {
        self.ids@
    }

    /// The store's invariant.
    pub closed spec fn wf(&self) -> bool {
        valid_state(self.bucket_views(), self.evidence_views())
    }

    /// An empty store whose counter has issued nothing.
    pub fn new() -> (r: Self)
        ensures
            r.wf(),
            r.bucket_views() == Seq::<BucketView>::empty(),
            r.evidence_views() == Seq::<EvidenceView>::empty(),
            r.last_id() == 0,
    {
        let r = ReputationStore { ids: IdGenerator::new(), buckets: Vec::new(), evidence: Vec::new() };
        proof {
            assert(r.bucket_views() =~= Seq::<BucketView>::empty());
            assert(r.evidence_views() =~= Seq::<EvidenceView>::empty());
        }
        r
    }

    /// Number of buckets stored.
    pub fn bucket_count(&self) -> (r: usize)
        ensures
            r == self.bucket_views().len(),
    {
        self.buckets.len()
    }

    /// The last number the id counter issued.
    pub fn last_issued_id(&self) -> (r: u64)
        ensures
            r == self.last_id(),
    {
        self.ids.last_issued()
    }

    /// Number of evidence records stored.
    pub fn evidence_count(&self) -> (r: usize)
        ensures
            r == self.evidence_views().len(),
    {
        self.evidence.len()
    }

    /// The position of the bucket with id `id`.
    fn position(&self, id: &String) -> (r: Option<usize>)
        ensures
            match r {
                Some(i) => i < self.bucket_views().len() && self.bucket_views()[i as int].id == id@,
                None => !has_id(self.bucket_views(), id@),
            },
    {
        let mut i: usize = 0;
        while i < self.buckets.len()
            invariant
                i <= self.buckets@.len(),
                forall|j: int| 0 <= j < i ==> self.bucket_views()[j].id != id@,
            decreases self.buckets@.len() - i,
        {
            if self.buckets[i].id == *id {
                return Some(i);
            }
            i = i + 1;
        }
        None
    }
    /// Where a bucket with id `id` is (`true`), or belongs in key order (`false`).
    fn bucket_slot(&self, id: &String) -> (r: (usize, bool))
        requires
            self.wf(),
        ensures
            r.1 ==> r.0 < self.bucket_views().len() && self.bucket_views()[r.0 as int].id == id@,
            !r.1 ==> is_bucket_slot(self.bucket_views(), id@, r.0 as int),
    {
        let ghost bv = self.bucket_views();
        let mut i: usize = 0;
        while i < self.buckets.len()
            invariant
                i <= bv.len(),
                bv == self.bucket_views(),
                buckets_sorted(bv),
                forall|k: int| 0 <= k < i ==> key_lt(#[trigger] bv[k].id, id@),
            decreases bv.len() - i,
        {
            let c = compare_keys(&self.buckets[i].id, id);
            if c == 0 {
                return (i, true);
            }
            if c > 0 {
                proof {
                    assert forall|k: int| i <= k < bv.len() implies key_lt(id@, #[trigger] bv[k].id) by {
                        if k > i {
                            lemma_key_transitive(id@, bv[i as int].id, bv[k].id);
                        }
                    }
                }
                return (i, false);
            }
            i = i + 1;
        }
        (i, false)
    }

    /// Where an evidence record with id `id` is (`true`), or belongs in key
    /// order (`false`).
    fn evidence_slot(&self, id: &String) -> (r: (usize, bool))
        requires
            self.wf(),
        ensures
            r.1 ==> r.0 < self.evidence_views().len() && self.evidence_views()[r.0 as int].id == id@,
            !r.1 ==> is_evidence_slot(self.evidence_views(), id@, r.0 as int),
    {
        let ghost ev = self.evidence_views();
        let mut i: usize = 0;
        while i < self.evidence.len()
            invariant
                i <= ev.len(),
                ev == self.evidence_views(),
                evidence_sorted(ev),
                forall|k: int| 0 <= k < i ==> key_lt(#[trigger] ev[k].id, id@),
            decreases ev.len() - i,
        {
            let c = compare_keys(&self.evidence[i].id, id);
            if c == 0 {
                return (i, true);
            }
            if c > 0 {
                proof {
                    assert forall|k: int| i <= k < ev.len() implies key_lt(id@, #[trigger] ev[k].id) by {
                        if k > i {
                            lemma_key_transitive(id@, ev[i as int].id, ev[k].id);
                        }
                    }
                }
                return (i, false);
            }
            i = i + 1;
        }
        (i, false)
    }

    /// Stores `b` under its id, replacing a bucket with the same id in place.
    fn upsert_bucket(&mut self, b: ReputationBucket)
        requires
            old(self).wf(),
            b.bucket == tier_of(b.score as int),
            bucket_encoded_len(b@) <= MAX_BUCKET_BYTES,
        ensures
            final(self).wf(),
            final(self).bucket_views() == upsert(old(self).bucket_views(), b@),
            final(self).evidence_views() == old(self).evidence_views(),
            final(self).last_id() == old(self).last_id(),
    {
        let ghost bv = self.bucket_views();
        let ghost bview = b@;
        let (i, found) = self.bucket_slot(&b.id);
        if found {
            proof {
                let c = choose|k: int| 0 <= k < bv.len() && bv[k].id == bview.id;
                assert(0 <= c < bv.len() && bv[c].id == bview.id);
                assert(c == i);
            }
            self.buckets.set(i, b);
            proof {
                let nv = self.bucket_views();
                assert(nv =~= bv.update(i as int, bview));
                assert forall|x: int, y: int| 0 <= x < y < nv.len() implies key_lt(#[trigger] nv[x].id, #[trigger] nv[y].id) by {
                    assert(nv[x].id == bv[x].id && nv[y].id == bv[y].id);
                }
            }
        } else {
            self.buckets.insert(i, b);
            proof {
                let nv = self.bucket_views();
                assert(nv =~= bv.insert(i as int, bview));
                let p = choose|p: int| is_bucket_slot(bv, bview.id, p);
                lemma_bucket_slot_unique(bv, bview.id, p, i as int);
                assert(!has_id(bv, bview.id)) by {
                    if has_id(bv, bview.id) {
                        let k = choose|k: int| 0 <= k < bv.len() && bv[k].id == bview.id;
                        lemma_key_asymmetric(bv[k].id, bview.id);
                    }
                }
                assert forall|x: int, y: int| 0 <= x < y < nv.len() implies key_lt(#[trigger] nv[x].id, #[trigger] nv[y].id) by {
                    if y < i {
                    } else if y == i {
                    } else if x < i {
                        assert(nv[y] == bv[y - 1]);
                    } else if x == i {
                        assert(nv[y] == bv[y - 1]);
                    } else {
                        assert(nv[x] == bv[x - 1] && nv[y] == bv[y - 1]);
                    }
                }
                assert forall|x: int, y: int| 0 <= x < nv.len() && 0 <= y < nv.len() && nv[x].id == nv[y].id implies x == y by {
                    if x < y {
                        lemma_key_asymmetric(nv[x].id, nv[y].id);
                    } else if y < x {
                        lemma_key_asymmetric(nv[y].id, nv[x].id);
                    }
                }
            }
        }
    }

    /// Stores `e` under its id, replacing a record with the same id in place.
    fn upsert_evidence_record(&mut self, e: ReputationEvidence)
        requires
            old(self).wf(),
            evidence_encoded_len(e@) <= MAX_EVIDENCE_BYTES,
        ensures
            final(self).wf(),
            final(self).evidence_views() == upsert_evidence(old(self).evidence_views(), e@),
            final(self).bucket_views() == old(self).bucket_views(),
            final(self).last_id() == old(self).last_id(),
    {
        let ghost ev = self.evidence_views();
        let ghost eview = e@;
        let (i, found) = self.evidence_slot(&e.id);
        if found {
            proof {
                let c = choose|k: int| 0 <= k < ev.len() && ev[k].id == eview.id;
                assert(0 <= c < ev.len() && ev[c].id == eview.id);
                if c < i {
                    lemma_key_asymmetric(ev[c].id, ev[c].id);
                } else if i < c {
                    lemma_key_asymmetric(ev[i as int].id, ev[i as int].id);
                }
                assert(c == i);
            }
            self.evidence.set(i, e);
            proof {
                let nv = self.evidence_views();
                assert(nv =~= ev.update(i as int, eview));
                assert forall|x: int, y: int| 0 <= x < y < nv.len() implies key_lt(#[trigger] nv[x].id, #[trigger] nv[y].id) by {
                    assert(nv[x].id == ev[x].id && nv[y].id == ev[y].id);
                }
                assert forall|k: int| 0 <= k < nv.len() implies evidence_encoded_len(#[trigger] nv[k]) <= MAX_EVIDENCE_BYTES by {
                    if k != i {
                        assert(nv[k] == ev[k]);
                    }
                }
            }
        } else {
            self.evidence.insert(i, e);
            proof {
                let nv = self.evidence_views();
                assert(nv =~= ev.insert(i as int, eview));
                let p = choose|p: int| is_evidence_slot(ev, eview.id, p);
                lemma_evidence_slot_unique(ev, eview.id, p, i as int);
                assert(!has_evidence_id(ev, eview.id)) by {
                    if has_evidence_id(ev, eview.id) {
                        let k = choose|k: int| 0 <= k < ev.len() && ev[k].id == eview.id;
                        lemma_key_asymmetric(ev[k].id, eview.id);
                    }
                }
                assert forall|x: int, y: int| 0 <= x < y < nv.len() implies key_lt(#[trigger] nv[x].id, #[trigger] nv[y].id) by {
                    if y < i {
                    } else if y == i {
                    } else if x < i {
                        assert(nv[y] == ev[y - 1]);
                    } else if x == i {
                        assert(nv[y] == ev[y - 1]);
                    } else {
                        assert(nv[x] == ev[x - 1] && nv[y] == ev[y - 1]);
                    }
                }
                assert forall|k: int| 0 <= k < nv.len() implies evidence_encoded_len(#[trigger] nv[k]) <= MAX_EVIDENCE_BYTES by {
                    if k < i {
                        assert(nv[k] == ev[k]);
                    } else if k > i {
                        assert(nv[k] == ev[k - 1]);
                    }
                }
            }
        }
    }

    /// Creates a bucket with a freshly minted id, the initial score (zero when
    /// absent), its tier, no evidence, and both timestamps `now`. Fails with
    /// `SizeExceeded`, storing nothing, when its serialized form would exceed
    /// `MAX_BUCKET_BYTES`. Buckets of one partition and skill are not deduplicated.
    pub fn create_bucket(
        &mut self,
        partition_id: String,
        skill_category: String,
        initial_score: Option<u32>,
        now: u64,
    ) -> (r: Result<ReputationBucket, StoreError>)
        requires
            old(self).wf(),
            old(self).last_id() < u64::MAX,
        ensures
            final(self).wf(),
            final(self).last_id() == old(self).last_id() + 1,
            final(self).evidence_views() == old(self).evidence_views(),
            ({
                let b = created_bucket(final(self).last_id(), partition_id@, skill_category@, initial_score, now);
                if bucket_encoded_len(b) <= MAX_BUCKET_BYTES {
                    &&& r is Ok
                    &&& r->Ok_0@ == b
                    &&& final(self).bucket_views() == upsert(old(self).bucket_views(), b)
                } else {
                    &&& r == Err::<ReputationBucket, StoreError>(StoreError::SizeExceeded)
                    &&& final(self).bucket_views() == old(self).bucket_views()
                }
            }),
    {
        let n = self.ids.next_id();
        proof {
            assert(self.bucket_views() == old(self).bucket_views());
            assert(self.evidence_views() == old(self).evidence_views());
        }
        let id = bucket_id(n);
        let score: u32 = match initial_score {
            Some(s) => s,
            None => 0,
        };
        let size: u128 = 44u128 + text_bytes(&id) as u128 + text_bytes(&partition_id) as u128
            + text_bytes(&skill_category) as u128;
        if size > MAX_BUCKET_BYTES as u128 {
            return Err(StoreError::SizeExceeded);
        }
        let b = ReputationBucket {
            id,
            partition_id,
            bucket: calculate_initial_bucket(score),
            skill_category,
            score,
            evidence_count: 0,
            last_updated: now,
            created_at: now,
        };
        let out = b.duplicate();
        self.upsert_bucket(b);
        Ok(out)
    }
    /// Records a piece of evidence for bucket `bucket_id`, always marked
    /// verified and stored whether or not that bucket exists. Then, when the
    /// bucket exists, counts the evidence, stamps it `now`, rescores it from its
    /// whole ledger and returns it; otherwise returns `NotFound`, leaving the
    /// evidence in place. Fails with `SizeExceeded`, storing nothing, when the
    /// evidence's serialized form would exceed `MAX_EVIDENCE_BYTES`.
    pub fn add_evidence(
        &mut self,
        bucket_id: String,
        evidence_type: String,
        evidence_data: String,
        weight: u32,
        now: u64,
    ) -> (r: Result<ReputationBucket, StoreError>)
        requires
            old(self).wf(),
            old(self).last_id() < u64::MAX,
        ensures
            final(self).wf(),
            final(self).last_id() == old(self).last_id() + 1,
            ({
                let e = appended_evidence(final(self).last_id(), bucket_id@, evidence_type@, evidence_data@, weight, now);
                if evidence_encoded_len(e) > MAX_EVIDENCE_BYTES {
                    &&& r == Err::<ReputationBucket, StoreError>(StoreError::SizeExceeded)
                    &&& final(self).bucket_views() == old(self).bucket_views()
                    &&& final(self).evidence_views() == old(self).evidence_views()
                } else {
                    &&& final(self).evidence_views() == upsert_evidence(old(self).evidence_views(), e)
                    &&& !has_id(old(self).bucket_views(), bucket_id@) ==> {
                        &&& r == Err::<ReputationBucket, StoreError>(StoreError::NotFound)
                        &&& final(self).bucket_views() == old(self).bucket_views()
                    }
                    &&& forall|i: int| 0 <= i < old(self).bucket_views().len() && #[trigger] old(self).bucket_views()[i].id == bucket_id@ ==> {
                        let nb = rescored(old(self).bucket_views()[i], final(self).evidence_views(), now);
                        &&& r is Ok
                        &&& r->Ok_0@ == nb
                        &&& final(self).bucket_views() == old(self).bucket_views().update(i, nb)
                    }
                }
            }),
    {
        let ghost bv = self.bucket_views();
        let ghost ev = self.evidence_views();
        let n = self.ids.next_id();
        proof {
            assert(self.bucket_views() == bv);
            assert(self.evidence_views() == ev);
        }
        let id = evidence_id(n);
        let size: u128 = 29u128 + text_bytes(&id) as u128 + text_bytes(&bucket_id) as u128
            + text_bytes(&evidence_type) as u128 + text_bytes(&evidence_data) as u128;
        if size > MAX_EVIDENCE_BYTES as u128 {
            return Err(StoreError::SizeExceeded);
        }
        let e = ReputationEvidence {
            id,
            bucket_id: bucket_id.clone(),
            evidence_type,
            evidence_data,
            weight,
            verified: true,
            created_at: now,
        };
        self.upsert_evidence_record(e);
        match self.position(&bucket_id) {
            None => Err(StoreError::NotFound),
            Some(i) => {
                let mut b = self.buckets[i].duplicate();
                if b.evidence_count < u64::MAX {
                    b.evidence_count = b.evidence_count + 1;
                }
                b.last_updated = now;
                b.score = calculate_reputation_score(&self.evidence, &bucket_id);
                b.bucket = calculate_bucket_from_score(b.score);
                let out = b.duplicate();
                let ghost nb = b@;
                self.buckets.set(i, b);
                proof {
                    assert(self.bucket_views() =~= bv.update(i as int, nb));
                    assert forall|k: int| 0 <= k < bv.len() && #[trigger] bv[k].id == bucket_id@ implies k == i by {}
                }
                Ok(out)
            },
        }
    }
    /// The bucket with id `id`.
    pub fn get_bucket(&self, id: &String) -> (r: Result<ReputationBucket, StoreError>)
        requires
            self.wf(),
        ensures
            r is Ok <==> has_id(self.bucket_views(), id@),
            r is Err ==> r->Err_0 == StoreError::NotFound,
            forall|i: int| 0 <= i < self.bucket_views().len() && #[trigger] self.bucket_views()[i].id == id@
                ==> r is Ok && r->Ok_0@ == self.bucket_views()[i],
    {
        match self.position(id) {
            None => Err(StoreError::NotFound),
            Some(i) => Ok(self.buckets[i].duplicate()),
        }
    }

    /// The first bucket of partition `partition_id` in storage order. Nothing
    /// keeps partitions unique: with several, the earliest stored is returned.
    pub fn find_by_partition(&self, partition_id: &String) -> (r: Result<ReputationBucket, StoreError>)
        ensures
            r is Ok <==> in_partition(self.bucket_views(), partition_id@).len() > 0,
            r is Err ==> r->Err_0 == StoreError::NotFound,
            r is Ok ==> r->Ok_0@ == in_partition(self.bucket_views(), partition_id@)[0],
    {
        let ghost bv = self.bucket_views();
        let mut i: usize = 0;
        while i < self.buckets.len()
            invariant
                i <= bv.len(),
                bv == self.bucket_views(),
                in_partition(bv.take(i as int), partition_id@).len() == 0,
            decreases bv.len() - i,
        {
            proof {
                assert(bv.take(i as int + 1).drop_last() =~= bv.take(i as int));
            }
            if self.buckets[i].partition_id == *partition_id {
                proof {
                    let t = bv.take(i as int + 1);
                    assert(t.last() == bv[i as int]);
                    assert(in_partition(t, partition_id@) =~= seq![bv[i as int]]);
                    lemma_listing_prefix(bv, partition_id@, i as int + 1);
                    assert(in_partition(bv, partition_id@).take(1)[0] == bv[i as int]);
                }
                return Ok(self.buckets[i].duplicate());
            }
            i = i + 1;
        }
        proof {
            assert(bv.take(i as int) =~= bv);
        }
        Err(StoreError::NotFound)
    }

    /// All buckets of partition `partition_id`, in storage order.
    pub fn list_by_partition(&self, partition_id: &String) -> (r: Vec<ReputationBucket>)
        ensures
            r@.map_values(|b: ReputationBucket| b@) == in_partition(self.bucket_views(), partition_id@),
    {
        let ghost bv = self.bucket_views();
        let mut out: Vec<ReputationBucket> = Vec::new();
        let mut i: usize = 0;
        while i < self.buckets.len()
            invariant
                i <= bv.len(),
                bv == self.bucket_views(),
                out@.map_values(|b: ReputationBucket| b@) == in_partition(bv.take(i as int), partition_id@),
            decreases bv.len() - i,
        {
            proof {
                assert(bv.take(i as int + 1).drop_last() =~= bv.take(i as int));
            }
            if self.buckets[i].partition_id == *partition_id {
                let ghost prev = out@;
                let b = self.buckets[i].duplicate();
                out.push(b);
                proof {
                    assert(out@.map_values(|b: ReputationBucket| b@) =~= prev.map_values(|b: ReputationBucket| b@).push(bv[i as int]));
                }
            }
            i = i + 1;
        }
        proof {
            assert(bv.take(i as int) =~= bv);
        }
        out
    }

    /// All evidence records that name bucket `bucket_id`, in storage order.
    pub fn list_by_bucket(&self, bucket_id: &String) -> (r: Vec<ReputationEvidence>)
        ensures
            evidence_views(r@) == naming_bucket(self.evidence_views(), bucket_id@),
    {
        let ghost ev = self.evidence_views();
        let mut out: Vec<ReputationEvidence> = Vec::new();
        let mut i: usize = 0;
        while i < self.evidence.len()
            invariant
                i <= ev.len(),
                ev == self.evidence_views(),
                evidence_views(out@) == naming_bucket(ev.take(i as int), bucket_id@),
            decreases ev.len() - i,
        {
            proof {
                assert(ev.take(i as int + 1).drop_last() =~= ev.take(i as int));
            }
            if self.evidence[i].bucket_id == *bucket_id {
                let ghost prev = out@;
                let e = self.evidence[i].duplicate();
                out.push(e);
                proof {
                    assert(evidence_views(out@) =~= evidence_views(prev).push(ev[i as int]));
                }
            }
            i = i + 1;
        }
        proof {
            assert(ev.take(i as int) =~= ev);
        }
        out
    }
    /// The serialized form of every bucket, in storage order.
    pub fn persisted_buckets(&self) -> (r: Vec<Vec<u8>>)
        requires
            self.wf(),
        ensures
            encodes_buckets(r@, self.bucket_views()),
    {
        let ghost bv = self.bucket_views();
        let mut out: Vec<Vec<u8>> = Vec::new();
        let mut i: usize = 0;
        while i < self.buckets.len()
            invariant
                i <= bv.len(),
                bv == self.bucket_views(),
                valid_state(bv, self.evidence_views()),
                out@.len() == i,
                forall|k: int| 0 <= k < i ==> (#[trigger] out@[k])@ == bucket_bytes(bv[k]),
            decreases bv.len() - i,
        {
            proof {
                assert(bucket_encoded_len(bv[i as int]) <= MAX_BUCKET_BYTES);
            }
            if let Ok(bytes) = encode_bucket(&self.buckets[i]) {
                out.push(bytes);
            }
            i = i + 1;
        }
        out
    }

    /// The serialized form of every evidence record, in storage order.
    pub fn persisted_evidence(&self) -> (r: Vec<Vec<u8>>)
        requires
            self.wf(),
        ensures
            encodes_evidence(r@, self.evidence_views()),
    {
        let ghost ev = self.evidence_views();
        let mut out: Vec<Vec<u8>> = Vec::new();
        let mut i: usize = 0;
        while i < self.evidence.len()
            invariant
                i <= ev.len(),
                ev == self.evidence_views(),
                valid_state(self.bucket_views(), ev),
                out@.len() == i,
                forall|k: int| 0 <= k < i ==> (#[trigger] out@[k])@ == evidence_bytes(ev[k]),
            decreases ev.len() - i,
        {
            proof {
                assert(evidence_encoded_len(ev[i as int]) <= MAX_EVIDENCE_BYTES);
            }
            if let Ok(bytes) = encode_evidence(&self.evidence[i]) {
                out.push(bytes);
            }
            i = i + 1;
        }
        out
    }
    /// A store reloaded from its persisted state: the last number its counter
    /// issued, and the serialized buckets and evidence records in storage
    /// order. What [`ReputationStore::persisted_buckets`] and
    /// [`ReputationStore::persisted_evidence`] wrote reloads to the same
    /// records, field for field and in the same order; bytes that are not the
    /// persisted state of a store give `SerializationError`.
    pub fn restore(last_id: u64, buckets: &Vec<Vec<u8>>, evidence: &Vec<Vec<u8>>) -> (r: Result<Self, StoreError>)
        ensures
            r is Ok ==> {
                &&& r->Ok_0.wf()
                &&& r->Ok_0.last_id() == last_id
                &&& encodes_buckets(buckets@, r->Ok_0.bucket_views())
                &&& encodes_evidence(evidence@, r->Ok_0.evidence_views())
            },
            r is Err ==> r->Err_0 == StoreError::SerializationError,
            forall|bv: Seq<BucketView>, ev: Seq<EvidenceView>|
                #[trigger] reloads(buckets@, evidence@, bv, ev) ==> {
                    &&& r is Ok
                    &&& r->Ok_0.bucket_views() == bv
                    &&& r->Ok_0.evidence_views() == ev
                },
    {
        let ledger = match decode_ledger(evidence) {
            Ok(l) => l,
            Err(e) => {
                proof {
                    assert forall|bv: Seq<BucketView>, ev: Seq<EvidenceView>|
                        #![trigger reloads(buckets@, evidence@, bv, ev)]
                        reloads(buckets@, evidence@, bv, ev) implies false by {
                        assert(evidence_fits(ev) && evidence_sorted(ev));
                    }
                }
                return Err(e);
            },
        };
        let list = match decode_buckets(buckets, &ledger) {
            Ok(l) => l,
            Err(e) => {
                proof {
                    assert forall|bv: Seq<BucketView>, ev: Seq<EvidenceView>|
                        #![trigger reloads(buckets@, evidence@, bv, ev)]
                        reloads(buckets@, evidence@, bv, ev) implies false by {
                        assert(evidence_fits(ev) && evidence_sorted(ev));
                        assert(evidence_views(ledger@) == ev);
                    }
                }
                return Err(e);
            },
        };
        let r = ReputationStore { ids: IdGenerator::resume(last_id), buckets: list, evidence: ledger };
        proof {
            assert forall|bv: Seq<BucketView>, ev: Seq<EvidenceView>|
                #![trigger reloads(buckets@, evidence@, bv, ev)]
                reloads(buckets@, evidence@, bv, ev) implies
                r.bucket_views() == bv && r.evidence_views() == ev by {
                assert(evidence_fits(ev) && evidence_sorted(ev));
                assert(evidence_views(ledger@) == ev);
            }
        }
        Ok(r)
    }

    /// Writes the store out as [`ReputationStore::persisted_buckets`] and
    /// [`ReputationStore::persisted_evidence`] do and reloads it with
    /// [`ReputationStore::restore`], as a restart does. The reload always
    /// succeeds and gives back the same buckets and evidence records, field for
    /// field and in the same order, with the counter where it was.
    pub fn reloaded(&self) -> (r: Result<ReputationStore, StoreError>)
        requires
            self.wf(),
        ensures
            r is Ok,
            r->Ok_0.wf(),
            r->Ok_0.bucket_views() == self.bucket_views(),
            r->Ok_0.evidence_views() == self.evidence_views(),
            r->Ok_0.last_id() == self.last_id(),
    {
        let buckets = self.persisted_buckets();
        let evidence = self.persisted_evidence();
        proof {
            assert(reloads(buckets@, evidence@, self.bucket_views(), self.evidence_views()));
        }
        ReputationStore::restore(self.last_issued_id(), &buckets, &evidence)
    }
}

} // verus!
