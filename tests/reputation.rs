use rqh::{
    calculate_bucket_from_score, calculate_initial_bucket, calculate_reputation_score, decode_bucket,
    decode_evidence, encode_bucket, encode_evidence, AddEvidenceRequest, CreateReputationRequest, IdGenerator, ReputationBucket,
    ReputationEvidence, ReputationStore, StoreError,
};

fn evidence(bucket_id: &str, weight: u32, verified: bool) -> ReputationEvidence {
    ReputationEvidence {
        id: String::from("evidence_x"),
        bucket_id: bucket_id.to_string(),
        evidence_type: String::from("review"),
        evidence_data: String::from("{}"),
        weight,
        verified,
        created_at: 1,
    }
}

fn sample_bucket() -> ReputationBucket {
    ReputationBucket {
        id: String::from("rqh_7"),
        partition_id: String::from("p1"),
        bucket: 3,
        skill_category: String::from("coding ✓"),
        score: 65_500,
        evidence_count: 4,
        last_updated: 1_700_000_000_000_000_123,
        created_at: 1_600_000_000_000_000_000,
    }
}

#[test]
fn tier_thresholds() {
    assert_eq!(calculate_bucket_from_score(100_000), 4);
    assert_eq!(calculate_bucket_from_score(80_000), 4);
    assert_eq!(calculate_bucket_from_score(79_999), 3);
    assert_eq!(calculate_bucket_from_score(60_000), 3);
    assert_eq!(calculate_bucket_from_score(59_999), 2);
    assert_eq!(calculate_bucket_from_score(40_000), 2);
    assert_eq!(calculate_bucket_from_score(20_000), 1);
    assert_eq!(calculate_bucket_from_score(19_999), 0);
    assert_eq!(calculate_bucket_from_score(0), 0);
    assert_eq!(calculate_initial_bucket(50_000), 2);
}

#[test]
fn tier_never_decreases() {
    let mut prev = calculate_bucket_from_score(0);
    let mut s: u32 = 0;
    while s <= 100_000 {
        let t = calculate_bucket_from_score(s);
        assert!(t >= prev);
        assert!(t <= 4);
        prev = t;
        s += 250;
    }
}

#[test]
fn score_is_scale_factor_for_any_weights() {
    let id = String::from("rqh_1");
    let ledger = vec![evidence("rqh_1", 1_000, true), evidence("rqh_1", 3_000, true), evidence("rqh_1", 500, true)];
    assert_eq!(calculate_reputation_score(&ledger, &id), 10_000);
    let equal = vec![evidence("rqh_1", 2_000, true), evidence("rqh_1", 2_000, true)];
    assert_eq!(calculate_reputation_score(&equal, &id), 10_000);
    let big = vec![evidence("rqh_1", u32::MAX, true), evidence("rqh_1", u32::MAX, true)];
    assert_eq!(calculate_reputation_score(&big, &id), 10_000);
}

#[test]
fn score_is_zero_without_weight() {
    let id = String::from("rqh_1");
    assert_eq!(calculate_reputation_score(&Vec::new(), &id), 0);
    let zeros = vec![evidence("rqh_1", 0, true), evidence("rqh_1", 0, true)];
    assert_eq!(calculate_reputation_score(&zeros, &id), 0);
    let others = vec![evidence("rqh_2", 5_000, true), evidence("rqh_1", 5_000, false)];
    assert_eq!(calculate_reputation_score(&others, &id), 0);
}

#[test]
fn create_bucket_with_initial_score() {
    let mut store = ReputationStore::new();
    let b = store.create_bucket(String::from("p1"), String::from("coding"), Some(50_000), 42).unwrap();
    assert_eq!(b.score, 50_000);
    assert_eq!(b.bucket, 2);
    assert_eq!(b.evidence_count, 0);
    assert_eq!(b.id, "rqh_1");
    assert_eq!(b.partition_id, "p1");
    assert_eq!(b.skill_category, "coding");
    assert_eq!(b.created_at, 42);
    assert_eq!(b.last_updated, 42);
    assert_eq!(store.bucket_count(), 1);
}

#[test]
fn create_bucket_without_score_starts_at_zero() {
    let mut store = ReputationStore::new();
    let b = store.create_bucket(String::from("p1"), String::from("design"), None, 5).unwrap();
    assert_eq!(b.score, 0);
    assert_eq!(b.bucket, 0);
}

#[test]
fn create_bucket_too_large_is_refused() {
    let mut store = ReputationStore::new();
    let huge = "x".repeat(1_000);
    let r = store.create_bucket(huge, String::from("coding"), None, 5);
    assert_eq!(r.unwrap_err(), StoreError::SizeExceeded);
    assert_eq!(store.bucket_count(), 0);
}

#[test]
fn add_evidence_to_unknown_bucket_keeps_orphan() {
    let mut store = ReputationStore::new();
    let r = store.add_evidence(String::from("rqh_99"), String::from("review"), String::from("{}"), 1_000, 7);
    assert_eq!(r.unwrap_err(), StoreError::NotFound);
    assert_eq!(store.evidence_count(), 1);
    let listed = store.list_by_bucket(&String::from("rqh_99"));
    assert_eq!(listed.len(), 1);
    assert_eq!(listed[0].id, "evidence_1");
    assert!(listed[0].verified);
    assert_eq!(listed[0].weight, 1_000);
}

#[test]
fn add_evidence_rescores_bucket() {
    let mut store = ReputationStore::new();
    let b = store.create_bucket(String::from("p1"), String::from("coding"), Some(90_000), 10).unwrap();
    assert_eq!(b.bucket, 4);
    let u = store.add_evidence(b.id.clone(), String::from("review"), String::from("good"), 2_500, 20).unwrap();
    assert_eq!(u.evidence_count, 1);
    assert_eq!(u.score, 10_000);
    assert_eq!(u.bucket, 0);
    assert_eq!(u.last_updated, 20);
    assert_eq!(u.created_at, 10);
    let u2 = store.add_evidence(b.id.clone(), String::from("review"), String::from("great"), 7_000, 30).unwrap();
    assert_eq!(u2.evidence_count, 2);
    assert_eq!(u2.score, 10_000);
    let stored = store.get_bucket(&b.id).unwrap();
    assert_eq!(stored.evidence_count, 2);
    assert_eq!(stored.last_updated, 30);
    assert_eq!(store.list_by_bucket(&b.id).len(), 2);
}

#[test]
fn add_evidence_with_zero_weight_scores_zero() {
    let mut store = ReputationStore::new();
    let b = store.create_bucket(String::from("p1"), String::from("coding"), Some(45_000), 1).unwrap();
    let u = store.add_evidence(b.id.clone(), String::from("note"), String::new(), 0, 2).unwrap();
    assert_eq!(u.score, 0);
    assert_eq!(u.bucket, 0);
    assert_eq!(u.evidence_count, 1);
}

#[test]
fn add_evidence_too_large_is_refused() {
    let mut store = ReputationStore::new();
    let b = store.create_bucket(String::from("p1"), String::from("coding"), None, 1).unwrap();
    let r = store.add_evidence(b.id.clone(), String::from("blob"), "y".repeat(3_000), 1_000, 2);
    assert_eq!(r.unwrap_err(), StoreError::SizeExceeded);
    assert_eq!(store.evidence_count(), 0);
    assert_eq!(store.get_bucket(&b.id).unwrap().evidence_count, 0);
}

#[test]
fn ids_strictly_increase_across_restart() {
    let mut g = IdGenerator::new();
    let a = g.next_id();
    let b = g.next_id();
    assert!(a < b);
    assert_eq!((a, b), (1, 2));
    let mut resumed = IdGenerator::resume(g.last_issued());
    let c = resumed.next_id();
    assert!(c > b);
    assert_eq!(c, 3);
}

#[test]
fn store_ids_shared_between_kinds() {
    let mut store = ReputationStore::new();
    let b = store.create_bucket(String::from("p1"), String::from("coding"), None, 1).unwrap();
    store.add_evidence(b.id.clone(), String::from("review"), String::new(), 1, 2).unwrap();
    let c = store.create_bucket(String::from("p2"), String::from("coding"), None, 3).unwrap();
    assert_eq!(b.id, "rqh_1");
    assert_eq!(store.list_by_bucket(&b.id)[0].id, "evidence_2");
    assert_eq!(c.id, "rqh_3");
}

#[test]
fn bucket_round_trip() {
    let b = sample_bucket();
    let bytes = encode_bucket(&b).unwrap();
    let back = decode_bucket(&bytes).unwrap();
    assert_eq!(back.id, b.id);
    assert_eq!(back.partition_id, b.partition_id);
    assert_eq!(back.bucket, b.bucket);
    assert_eq!(back.skill_category, b.skill_category);
    assert_eq!(back.score, b.score);
    assert_eq!(back.evidence_count, b.evidence_count);
    assert_eq!(back.last_updated, b.last_updated);
    assert_eq!(back.created_at, b.created_at);
}

#[test]
fn bucket_encoding_layout() {
    let b = ReputationBucket {
        id: String::from("a"),
        partition_id: String::new(),
        bucket: 1,
        skill_category: String::from("é"),
        score: 0x0102_0304,
        evidence_count: 2,
        last_updated: 3,
        created_at: 4,
    };
    let bytes = encode_bucket(&b).unwrap();
    assert_eq!(bytes.len(), 44 + 1 + 0 + 2);
    assert_eq!(&bytes[0..5], &[1, 0, 0, 0, b'a']);
    assert_eq!(&bytes[5..9], &[0, 0, 0, 0]);
    assert_eq!(&bytes[9..13], &[1, 0, 0, 0]);
    assert_eq!(&bytes[13..19], &[2, 0, 0, 0, 0xc3, 0xa9]);
    assert_eq!(&bytes[19..23], &[4, 3, 2, 1]);
}

#[test]
fn bucket_encoding_bound() {
    let mut b = sample_bucket();
    b.skill_category = "z".repeat(2_000);
    assert_eq!(encode_bucket(&b).unwrap_err(), StoreError::SizeExceeded);
}

#[test]
fn malformed_bytes_are_refused() {
    assert_eq!(decode_bucket(&Vec::new()).unwrap_err(), StoreError::SerializationError);
    let mut bytes = encode_bucket(&sample_bucket()).unwrap();
    bytes.push(0);
    assert_eq!(decode_bucket(&bytes).unwrap_err(), StoreError::SerializationError);
    bytes.truncate(bytes.len() - 2);
    assert_eq!(decode_bucket(&bytes).unwrap_err(), StoreError::SerializationError);
    let bad_utf8 = vec![1u8, 0, 0, 0, 0xff];
    assert_eq!(decode_bucket(&bad_utf8).unwrap_err(), StoreError::SerializationError);
}

#[test]
fn list_by_partition_keeps_all_in_order() {
    let mut store = ReputationStore::new();
    let a = store.create_bucket(String::from("p1"), String::from("coding"), None, 1).unwrap();
    store.create_bucket(String::from("p2"), String::from("coding"), None, 2).unwrap();
    let b = store.create_bucket(String::from("p1"), String::from("design"), Some(30_000), 3).unwrap();
    let c = store.create_bucket(String::from("p1"), String::from("coding"), Some(70_000), 4).unwrap();
    let listed = store.list_by_partition(&String::from("p1"));
    let ids: Vec<String> = listed.iter().map(|x| x.id.clone()).collect();
    assert_eq!(ids, vec![a.id.clone(), b.id.clone(), c.id.clone()]);
    assert_eq!(store.list_by_partition(&String::from("p-other")).len(), 0);
    assert_eq!(store.get_partition_reputation(String::from("p2")).len(), 1);
}

#[test]
fn find_by_partition_gives_first_stored() {
    let mut store = ReputationStore::new();
    store.create_bucket(String::from("p2"), String::from("coding"), None, 1).unwrap();
    let first = store.create_bucket(String::from("p1"), String::from("coding"), None, 2).unwrap();
    store.create_bucket(String::from("p1"), String::from("design"), None, 3).unwrap();
    assert_eq!(store.find_by_partition(&String::from("p1")).unwrap().id, first.id);
    assert_eq!(store.find_by_partition(&String::from("zz")).unwrap_err(), StoreError::NotFound);
    assert_eq!(store.get_bucket(&String::from("rqh_42")).unwrap_err(), StoreError::NotFound);
}

#[test]
fn responses_carry_messages() {
    let mut store = ReputationStore::new();
    let missing = store.get_reputation_bucket(String::from("p1"));
    assert!(!missing.ok);
    assert!(missing.data.is_none());
    assert_eq!(missing.error.unwrap(), "No reputation bucket found for this partition ID");
    let created = store.create_reputation_bucket(
        CreateReputationRequest { partition_id: String::from("p1"), skill_category: String::from("coding"), initial_score: Some(50_000) },
        9,
    );
    assert!(created.ok);
    let bucket = created.data.unwrap();
    assert_eq!(bucket.bucket, 2);
    let found = store.get_reputation_bucket(String::from("p1"));
    assert_eq!(found.data.unwrap().id, bucket.id);
    let orphan = store.add_reputation_evidence(
        AddEvidenceRequest { bucket_id: String::from("nope"), evidence_type: String::from("t"), evidence_data: String::new(), weight: 1_000 },
        10,
    );
    assert!(!orphan.ok);
    assert_eq!(orphan.error.unwrap(), "Reputation bucket not found");
    let applied = store.add_reputation_evidence(
        AddEvidenceRequest { bucket_id: bucket.id.clone(), evidence_type: String::from("t"), evidence_data: String::new(), weight: 1_000 },
        11,
    );
    assert!(applied.ok);
    assert_eq!(applied.data.unwrap().score, 10_000);
    let ev = store.get_reputation_evidence(String::from("nope"));
    assert!(ev.ok);
    assert_eq!(ev.data.unwrap().len(), 1);
}

#[test]
fn evidence_round_trip() {
    let mut e = evidence("rqh_3", 1_250, true);
    e.created_at = u64::MAX - 1;
    e.evidence_data = String::from("{\"note\":\"naïve\"}");
    let bytes = encode_evidence(&e).unwrap();
    assert_eq!(bytes.len(), 29 + e.id.len() + e.bucket_id.len() + e.evidence_type.len() + e.evidence_data.len());
    let back = decode_evidence(&bytes).unwrap();
    assert_eq!(back.id, e.id);
    assert_eq!(back.bucket_id, e.bucket_id);
    assert_eq!(back.evidence_type, e.evidence_type);
    assert_eq!(back.evidence_data, e.evidence_data);
    assert_eq!(back.weight, e.weight);
    assert_eq!(back.verified, e.verified);
    assert_eq!(back.created_at, e.created_at);
    let unverified = evidence("rqh_3", 0, false);
    assert!(!decode_evidence(&encode_evidence(&unverified).unwrap()).unwrap().verified);
}

#[test]
fn evidence_encoding_checks() {
    let mut e = evidence("rqh_3", 1, true);
    e.evidence_data = "d".repeat(2_100);
    assert_eq!(encode_evidence(&e).unwrap_err(), StoreError::SizeExceeded);
    let mut bytes = encode_evidence(&evidence("rqh_3", 1, true)).unwrap();
    let flag = bytes.len() - 9;
    bytes[flag] = 2;
    assert_eq!(decode_evidence(&bytes).unwrap_err(), StoreError::SerializationError);
    assert_eq!(decode_evidence(&vec![0u8; 3]).unwrap_err(), StoreError::SerializationError);
}

#[test]
fn store_reloads_from_persisted_bytes() {
    let mut store = ReputationStore::new();
    let a = store.create_bucket(String::from("p1"), String::from("coding"), Some(50_000), 1).unwrap();
    store.add_evidence(a.id.clone(), String::from("review"), String::from("ok"), 1_500, 2).unwrap();
    store.add_evidence(String::from("ghost"), String::from("review"), String::new(), 10, 3).unwrap_err();
    let b = store.create_bucket(String::from("p2"), String::from("design"), None, 4).unwrap();
    let buckets = store.persisted_buckets();
    let ledger = store.persisted_evidence();
    let mut back = ReputationStore::restore(store.last_issued_id(), &buckets, &ledger).unwrap();
    assert_eq!(back.bucket_count(), 2);
    assert_eq!(back.evidence_count(), 2);
    let a2 = back.get_bucket(&a.id).unwrap();
    let a1 = store.get_bucket(&a.id).unwrap();
    assert_eq!(a2.partition_id, a1.partition_id);
    assert_eq!(a2.skill_category, a1.skill_category);
    assert_eq!(a2.score, a1.score);
    assert_eq!(a2.bucket, a1.bucket);
    assert_eq!(a2.evidence_count, 1);
    assert_eq!(a2.last_updated, a1.last_updated);
    assert_eq!(a2.created_at, a1.created_at);
    assert_eq!(back.get_bucket(&b.id).unwrap().skill_category, "design");
    assert_eq!(back.list_by_bucket(&String::from("ghost")).len(), 1);
    assert_eq!(back.last_issued_id(), 4);
    let c = back.create_bucket(String::from("p-other"), String::from("ops"), None, 5).unwrap();
    assert_eq!(c.id, "rqh_5");
}

#[test]
fn restore_refuses_bad_state() {
    let mut store = ReputationStore::new();
    store.create_bucket(String::from("p1"), String::from("coding"), Some(50_000), 1).unwrap();
    let buckets = store.persisted_buckets();
    let ledger = store.persisted_evidence();
    let twice = vec![buckets[0].clone(), buckets[0].clone()];
    assert_eq!(ReputationStore::restore(1, &twice, &ledger).err(), Some(StoreError::SerializationError));
    let mut corrupt = buckets.clone();
    corrupt[0].pop();
    assert_eq!(ReputationStore::restore(1, &corrupt, &ledger).err(), Some(StoreError::SerializationError));
    let mut wrong_tier = store.get_bucket(&String::from("rqh_1")).unwrap();
    wrong_tier.bucket = 4;
    let tier_bytes = vec![encode_bucket(&wrong_tier).unwrap()];
    assert_eq!(ReputationStore::restore(1, &tier_bytes, &ledger).err(), Some(StoreError::SerializationError));
    let mut other = store.get_bucket(&String::from("rqh_1")).unwrap();
    other.id = String::from("rqh_0");
    let descending = vec![buckets[0].clone(), encode_bucket(&other).unwrap()];
    assert_eq!(ReputationStore::restore(1, &descending, &ledger).err(), Some(StoreError::SerializationError));
    let empty = ReputationStore::restore(0, &Vec::new(), &Vec::new()).unwrap();
    assert_eq!(empty.bucket_count(), 0);
}

#[test]
fn listings_follow_key_order() {
    let mut store = ReputationStore::new();
    for _ in 0..7 {
        store.create_bucket(String::from("other"), String::from("x"), None, 1).unwrap();
    }
    let b8 = store.create_bucket(String::from("p"), String::from("a"), None, 2).unwrap();
    let b9 = store.create_bucket(String::from("p"), String::from("b"), None, 3).unwrap();
    let b10 = store.create_bucket(String::from("p"), String::from("c"), None, 4).unwrap();
    assert_eq!(b10.id, "rqh_10");
    let ids: Vec<String> = store.list_by_partition(&String::from("p")).iter().map(|x| x.id.clone()).collect();
    assert_eq!(ids, vec![b10.id.clone(), b8.id.clone(), b9.id.clone()]);
    assert_eq!(store.find_by_partition(&String::from("p")).unwrap().id, "rqh_10");
    let mut ledger = ReputationStore::new();
    for _ in 0..8 {
        ledger.create_bucket(String::from("q"), String::from("x"), None, 1).unwrap();
    }
    ledger.add_evidence(String::from("b"), String::from("t"), String::new(), 1, 2).unwrap_err();
    ledger.add_evidence(String::from("b"), String::from("t"), String::new(), 1, 3).unwrap_err();
    let ev: Vec<String> = ledger.list_by_bucket(&String::from("b")).iter().map(|x| x.id.clone()).collect();
    assert_eq!(ev, vec![String::from("evidence_10"), String::from("evidence_9")]);
}

#[test]
fn reloaded_store_matches() {
    let mut store = ReputationStore::new();
    let a = store.create_bucket(String::from("p1"), String::from("coding"), Some(61_000), 1).unwrap();
    store.add_evidence(a.id.clone(), String::from("review"), String::from("x"), 700, 2).unwrap();
    let back = store.reloaded().unwrap();
    assert_eq!(back.last_issued_id(), store.last_issued_id());
    assert_eq!(back.bucket_count(), 1);
    assert_eq!(back.evidence_count(), 1);
    let b = back.get_bucket(&a.id).unwrap();
    assert_eq!(b.score, 10_000);
    assert_eq!(b.evidence_count, 1);
    assert_eq!(back.list_by_bucket(&a.id)[0].evidence_data, "x");
}
