use crate::records::{BucketView, EvidenceView, ReputationBucket, ReputationEvidence};
use crate::store::{bucket_encoded_len, evidence_encoded_len, StoreError, MAX_BUCKET_BYTES, MAX_EVIDENCE_BYTES};
use vstd::prelude::*;
use vstd::utf8::{decode_utf8, decode_utf8_encode_utf8, encode_utf8, encode_utf8_decode_utf8, encode_utf8_valid_utf8, valid_utf8};

verus! {

/// The four little-endian bytes of `x`.
pub open spec fn u32_le(x: u32) -> Seq<u8> {
    seq![(x & 0xff) as u8, ((x >> 8u32) & 0xff) as u8, ((x >> 16u32) & 0xff) as u8, ((x >> 24u32) & 0xff) as u8]
}

/// The eight little-endian bytes of `x`.
pub open spec fn u64_le(x: u64) -> Seq<u8> {
    u32_le((x & 0xffff_ffff) as u32) + u32_le((x >> 32u64) as u32)
}

/// A text as its UTF-8 byte count (32-bit little-endian) followed by its bytes.
pub open spec fn text_field(s: Seq<char>) -> Seq<u8> {
    u32_le(encode_utf8(s).len() as u32) + encode_utf8(s)
}

/// The serialized form of a bucket: id, partition, tier, skill, score,
/// evidence count, last update and creation time, in that order.
pub open spec fn bucket_bytes(b: BucketView) -> Seq<u8> {
    text_field(b.id) + text_field(b.partition_id) + u32_le(b.bucket) + text_field(b.skill_category)
        + u32_le(b.score) + u64_le(b.evidence_count) + u64_le(b.last_updated) + u64_le(b.created_at)
}

/// The serialized form of an evidence record: id, bucket id, type, data,
/// weight, a verified byte (1 or 0) and creation time, in that order.
pub open spec fn evidence_bytes(e: EvidenceView) -> Seq<u8> {
    text_field(e.id) + text_field(e.bucket_id) + text_field(e.evidence_type) + text_field(e.evidence_data)
        + u32_le(e.weight) + seq![if e.verified { 1u8 } else { 0u8 }] + u64_le(e.created_at)
}

proof fn lemma_u32_bytes(x: u32, b0: u8, b1: u8, b2: u8, b3: u8)
    requires
        x == (b0 as u32) | ((b1 as u32) << 8u32) | ((b2 as u32) << 16u32) | ((b3 as u32) << 24u32),
    ensures
        (x & 0xff) as u8 == b0,
        ((x >> 8u32) & 0xff) as u8 == b1,
        ((x >> 16u32) & 0xff) as u8 == b2,
        ((x >> 24u32) & 0xff) as u8 == b3,
{
    assert((x & 0xff) as u8 == b0 && ((x >> 8u32) & 0xff) as u8 == b1 && ((x >> 16u32) & 0xff) as u8 == b2
        && ((x >> 24u32) & 0xff) as u8 == b3) by (bit_vector)
        requires
            x == (b0 as u32) | ((b1 as u32) << 8u32) | ((b2 as u32) << 16u32) | ((b3 as u32) << 24u32);
}

proof fn lemma_u32_unique(x: u32, y: u32)
    requires
        u32_le(x) == u32_le(y),
    ensures
        x == y,
{
    assert(u32_le(x)[0] == u32_le(y)[0] && u32_le(x)[1] == u32_le(y)[1]);
    assert(u32_le(x)[2] == u32_le(y)[2] && u32_le(x)[3] == u32_le(y)[3]);
    let (a0, a1, a2, a3) = ((x & 0xff) as u8, ((x >> 8u32) & 0xff) as u8, ((x >> 16u32) & 0xff) as u8, ((x >> 24u32) & 0xff) as u8);
    let (c0, c1, c2, c3) = ((y & 0xff) as u8, ((y >> 8u32) & 0xff) as u8, ((y >> 16u32) & 0xff) as u8, ((y >> 24u32) & 0xff) as u8);
    assert(x == y) by (bit_vector)
        requires
            a0 == (x & 0xff) as u8, a1 == ((x >> 8u32) & 0xff) as u8, a2 == ((x >> 16u32) & 0xff) as u8, a3 == ((x >> 24u32) & 0xff) as u8,
            c0 == (y & 0xff) as u8, c1 == ((y >> 8u32) & 0xff) as u8, c2 == ((y >> 16u32) & 0xff) as u8, c3 == ((y >> 24u32) & 0xff) as u8,
            a0 == c0, a1 == c1, a2 == c2, a3 == c3;
}

proof fn lemma_u64_parts(x: u64, lo: u32, hi: u32)
    requires
        x == (lo as u64) | ((hi as u64) << 32u64),
    ensures
        (x & 0xffff_ffff) as u32 == lo,
        (x >> 32u64) as u32 == hi,
{
    assert((x & 0xffff_ffff) as u32 == lo && (x >> 32u64) as u32 == hi) by (bit_vector)
        requires
            x == (lo as u64) | ((hi as u64) << 32u64);
}

proof fn lemma_u64_unique(x: u64, y: u64)
    requires
        u64_le(x) == u64_le(y),
    ensures
        x == y,
{
    let (xl, xh, yl, yh) = ((x & 0xffff_ffff) as u32, (x >> 32u64) as u32, (y & 0xffff_ffff) as u32, (y >> 32u64) as u32);
    assert(u64_le(x).subrange(0, 4) =~= u32_le(xl));
    assert(u64_le(y).subrange(0, 4) =~= u32_le(yl));
    assert(u64_le(x).subrange(4, 8) =~= u32_le(xh));
    assert(u64_le(y).subrange(4, 8) =~= u32_le(yh));
    lemma_u32_unique(xl, yl);
    lemma_u32_unique(xh, yh);
    assert(x == y) by (bit_vector)
        requires
            xl == (x & 0xffff_ffff) as u32, xh == (x >> 32u64) as u32,
            yl == (y & 0xffff_ffff) as u32, yh == (y >> 32u64) as u32,
            xl == yl, xh == yh;
}

/// Appends the little-endian bytes of `x`.
fn push_u32(out: &mut Vec<u8>, x: u32)
    ensures
        final(out)@ == old(out)@ + u32_le(x),
{
    out.push((x & 0xff) as u8);
    out.push(((x >> 8u32) & 0xff) as u8);
    out.push(((x >> 16u32) & 0xff) as u8);
    out.push(((x >> 24u32) & 0xff) as u8);
    assert(final(out)@ =~= old(out)@ + u32_le(x));
}

/// Appends the little-endian bytes of `x`.
fn push_u64(out: &mut Vec<u8>, x: u64)
    ensures
        final(out)@ == old(out)@ + u64_le(x),
{
    push_u32(out, (x & 0xffff_ffff) as u32);
    push_u32(out, (x >> 32u64) as u32);
    assert(final(out)@ =~= old(out)@ + u64_le(x));
}

/// Appends a text field.
fn push_text(out: &mut Vec<u8>, s: &String)
    requires
        encode_utf8(s@).len() <= u32::MAX,
    ensures
        final(out)@ == old(out)@ + text_field(s@),
{
    let bytes = s.as_str().as_bytes();
    push_u32(out, bytes.len() as u32);
    let ghost mid = out@;
    let mut i: usize = 0;
    while i < bytes.len()
        invariant
            i <= bytes@.len(),
            bytes@ == encode_utf8(s@),
            out@ == mid + bytes@.take(i as int),
        decreases bytes@.len() - i,
    {
        out.push(bytes[i]);
        i = i + 1;
        assert(out@ =~= mid + bytes@.take(i as int));
    }
    assert(bytes@.take(i as int) =~= bytes@);
    assert(final(out)@ =~= old(out)@ + text_field(s@));
}

/// Serializes a bucket; fails with `SizeExceeded` when its serialized form
/// would exceed `MAX_BUCKET_BYTES`, never truncating.
pub fn encode_bucket(b: &ReputationBucket) -> (r: Result<Vec<u8>, StoreError>)
    ensures
        bucket_encoded_len(b@) <= MAX_BUCKET_BYTES ==> r is Ok && r->Ok_0@ == bucket_bytes(b@),
        bucket_encoded_len(b@) > MAX_BUCKET_BYTES ==> r == Err::<Vec<u8>, StoreError>(StoreError::SizeExceeded),
        r is Ok ==> r->Ok_0@.len() == bucket_encoded_len(b@),
{
    let size: u128 = 44u128 + b.id.as_str().as_bytes().len() as u128
        + b.partition_id.as_str().as_bytes().len() as u128 + b.skill_category.as_str().as_bytes().len() as u128;
    if size > MAX_BUCKET_BYTES as u128 {
        return Err(StoreError::SizeExceeded);
    }
    let mut out: Vec<u8> = Vec::new();
    push_text(&mut out, &b.id);
    push_text(&mut out, &b.partition_id);
    push_u32(&mut out, b.bucket);
    push_text(&mut out, &b.skill_category);
    push_u32(&mut out, b.score);
    push_u64(&mut out, b.evidence_count);
    push_u64(&mut out, b.last_updated);
    push_u64(&mut out, b.created_at);
    assert(out@ =~= bucket_bytes(b@));
    Ok(out)
}

/// Relies on `String::from_utf8`: it succeeds exactly on well-formed UTF-8,
/// and then holds the characters those bytes encode.
#[verifier::external_body]
fn string_from_utf8(bytes: Vec<u8>) -> (r: Option<String>)
    ensures
        r is Some <==> valid_utf8(bytes@),
        r is Some ==> r->Some_0@ == decode_utf8(bytes@),
{
    String::from_utf8(bytes).ok()
}

/// Reads four little-endian bytes at `pos`.
fn read_u32(bytes: &Vec<u8>, pos: usize) -> (r: Option<u32>)
    ensures
        r is Some <==> pos + 4 <= bytes@.len(),
        r is Some ==> bytes@.subrange(pos as int, pos + 4) == u32_le(r->Some_0),
        forall|x: u32| pos + 4 <= bytes@.len() && bytes@.subrange(pos as int, pos + 4) == #[trigger] u32_le(x) ==> r == Some(x),
{
    if pos > bytes.len() || bytes.len() - pos < 4 {
        return None;
    }
    let b0 = bytes[pos];
    let b1 = bytes[pos + 1];
    let b2 = bytes[pos + 2];
    let b3 = bytes[pos + 3];
    let x: u32 = (b0 as u32) | ((b1 as u32) << 8u32) | ((b2 as u32) << 16u32) | ((b3 as u32) << 24u32);
    proof {
        lemma_u32_bytes(x, b0, b1, b2, b3);
        assert(bytes@.subrange(pos as int, pos + 4) =~= u32_le(x));
        assert forall|y: u32| pos + 4 <= bytes@.len() && bytes@.subrange(pos as int, pos + 4) == #[trigger] u32_le(y) implies Some(x) == Some(y) by {
            lemma_u32_unique(x, y);
        }
    }
    Some(x)
}

/// Reads eight little-endian bytes at `pos`.
fn read_u64(bytes: &Vec<u8>, pos: usize) -> (r: Option<u64>)
    ensures
        r is Some <==> pos + 8 <= bytes@.len(),
        r is Some ==> bytes@.subrange(pos as int, pos + 8) == u64_le(r->Some_0),
        forall|x: u64| pos + 8 <= bytes@.len() && bytes@.subrange(pos as int, pos + 8) == #[trigger] u64_le(x) ==> r == Some(x),
{
    if pos > bytes.len() || bytes.len() - pos < 8 {
        return None;
    }
    let lo = match read_u32(bytes, pos) { Some(v) => v, None => return None };
    let hi = match read_u32(bytes, pos + 4) { Some(v) => v, None => return None };
    let x: u64 = (lo as u64) | ((hi as u64) << 32u64);
    proof {
        lemma_u64_parts(x, lo, hi);
        assert(bytes@.subrange(pos as int, pos + 8) =~= bytes@.subrange(pos as int, pos + 4) + bytes@.subrange(pos + 4, pos + 8));
        assert(bytes@.subrange(pos as int, pos + 8) =~= u64_le(x));
        assert forall|y: u64| pos + 8 <= bytes@.len() && bytes@.subrange(pos as int, pos + 8) == #[trigger] u64_le(y) implies Some(x) == Some(y) by {
            lemma_u64_unique(x, y);
        }
    }
    Some(x)
}

/// Reads a text field at `pos`, giving the text and the position after it.
fn read_text(bytes: &Vec<u8>, pos: usize) -> (r: Option<(String, usize)>)
    ensures
        r is Some ==> pos <= r->Some_0.1 <= bytes@.len()
            && bytes@.subrange(pos as int, r->Some_0.1 as int) == text_field(r->Some_0.0@),
        forall|s: Seq<char>| encode_utf8(s).len() <= u32::MAX && pos + text_field(s).len() <= bytes@.len()
            && bytes@.subrange(pos as int, pos + text_field(s).len()) == #[trigger] text_field(s)
            ==> r is Some && r->Some_0.0@ == s && r->Some_0.1 == pos + text_field(s).len(),
{
    let blen = bytes.len();
    let n = match read_u32(bytes, pos) {
        Some(v) => v,
        None => {
            proof {
                assert forall|s: Seq<char>| encode_utf8(s).len() <= u32::MAX && pos + text_field(s).len() <= bytes@.len()
                    && bytes@.subrange(pos as int, pos + text_field(s).len()) == #[trigger] text_field(s) implies false by {}
            }
            return None;
        },
    };
    let start: usize = pos + 4;
    if blen - start < n as usize {
        proof {
            assert forall|s: Seq<char>| encode_utf8(s).len() <= u32::MAX && pos + text_field(s).len() <= bytes@.len()
                && bytes@.subrange(pos as int, pos + text_field(s).len()) == #[trigger] text_field(s) implies false by {
                assert(bytes@.subrange(pos as int, pos + 4) =~= text_field(s).subrange(0, 4));
                assert(text_field(s).subrange(0, 4) =~= u32_le(encode_utf8(s).len() as u32));
            }
        }
        return None;
    }
    let end: usize = start + n as usize;
    let mut v: Vec<u8> = Vec::new();
    let mut i: usize = start;
    while i < end
        invariant
            start <= i <= end <= bytes@.len(),
            v@ == bytes@.subrange(start as int, i as int),
        decreases end - i,
    {
        v.push(bytes[i]);
        i = i + 1;
        assert(v@ =~= bytes@.subrange(start as int, i as int));
    }
    let ghost vb = v@;
    proof {
        assert forall|s: Seq<char>| encode_utf8(s).len() <= u32::MAX && pos + text_field(s).len() <= bytes@.len()
            && bytes@.subrange(pos as int, pos + text_field(s).len()) == #[trigger] text_field(s) implies
            vb == encode_utf8(s) by {
            assert(bytes@.subrange(pos as int, pos + 4) =~= text_field(s).subrange(0, 4));
            assert(text_field(s).subrange(0, 4) =~= u32_le(encode_utf8(s).len() as u32));
            assert(encode_utf8(s).len() as u32 == n);
            assert(vb =~= text_field(s).subrange(4, text_field(s).len() as int));
        }
    }
    match string_from_utf8(v) {
        None => {
            proof {
                assert forall|s: Seq<char>| encode_utf8(s).len() <= u32::MAX && pos + text_field(s).len() <= bytes@.len()
                    && bytes@.subrange(pos as int, pos + text_field(s).len()) == #[trigger] text_field(s) implies false by {
                    encode_utf8_valid_utf8(s);
                }
            }
            None
        },
        Some(t) => {
            proof {
                decode_utf8_encode_utf8(vb);
                assert(bytes@.subrange(pos as int, end as int) =~= u32_le(n) + vb);
                assert forall|s: Seq<char>| encode_utf8(s).len() <= u32::MAX && pos + text_field(s).len() <= bytes@.len()
                    && bytes@.subrange(pos as int, pos + text_field(s).len()) == #[trigger] text_field(s) implies
                    t@ == s by {
                    encode_utf8_decode_utf8(s);
                }
            }
            Some((t, end))
        },
    }
}

/// Where each field of a serialized bucket starts.
proof fn lemma_bucket_layout(b: BucketView)
    requires
        bucket_encoded_len(b) <= MAX_BUCKET_BYTES,
    ensures
        ({
            let bytes = bucket_bytes(b);
            let at1 = text_field(b.id).len() as int;
            let at2 = at1 + text_field(b.partition_id).len();
            let at3 = at2 + 4;
            let at4 = at3 + text_field(b.skill_category).len();
            &&& encode_utf8(b.id).len() <= u32::MAX
            &&& encode_utf8(b.partition_id).len() <= u32::MAX
            &&& encode_utf8(b.skill_category).len() <= u32::MAX
            &&& bytes.len() == at4 + 28
            &&& bytes.subrange(0, at1) == text_field(b.id)
            &&& bytes.subrange(at1, at2) == text_field(b.partition_id)
            &&& bytes.subrange(at2, at3) == u32_le(b.bucket)
            &&& bytes.subrange(at3, at4) == text_field(b.skill_category)
            &&& bytes.subrange(at4, at4 + 4) == u32_le(b.score)
            &&& bytes.subrange(at4 + 4, at4 + 12) == u64_le(b.evidence_count)
            &&& bytes.subrange(at4 + 12, at4 + 20) == u64_le(b.last_updated)
            &&& bytes.subrange(at4 + 20, at4 + 28) == u64_le(b.created_at)
        }),
{
    let bytes = bucket_bytes(b);
    let at1 = text_field(b.id).len() as int;
    let at2 = at1 + text_field(b.partition_id).len();
    let at3 = at2 + 4;
    let at4 = at3 + text_field(b.skill_category).len();
    assert(bytes.subrange(0, at1) =~= text_field(b.id));
    assert(bytes.subrange(at1, at2) =~= text_field(b.partition_id));
    assert(bytes.subrange(at2, at3) =~= u32_le(b.bucket));
    assert(bytes.subrange(at3, at4) =~= text_field(b.skill_category));
    assert(bytes.subrange(at4, at4 + 4) =~= u32_le(b.score));
    assert(bytes.subrange(at4 + 4, at4 + 12) =~= u64_le(b.evidence_count));
    assert(bytes.subrange(at4 + 12, at4 + 20) =~= u64_le(b.last_updated));
    assert(bytes.subrange(at4 + 20, at4 + 28) =~= u64_le(b.created_at));
}

/// Deserializes a bucket. Bytes written by [`encode_bucket`] give back the
/// bucket that was written, field for field; any other bytes give
/// `SerializationError`.
#[verifier::spinoff_prover]
#[verifier::rlimit(80)]
pub fn decode_bucket(bytes: &Vec<u8>) -> (r: Result<ReputationBucket, StoreError>)
    ensures
        r is Ok ==> bucket_bytes(r->Ok_0@) == bytes@,
        forall|b: BucketView| bucket_encoded_len(b) <= MAX_BUCKET_BYTES && #[trigger] bucket_bytes(b) == bytes@
            ==> r is Ok && r->Ok_0@ == b,
        r is Err ==> r->Err_0 == StoreError::SerializationError,
{
    let blen = bytes.len();
    let (id, at1) = match read_text(bytes, 0) {
        Some(v) => v,
        None => {
            proof {
                assert forall|b: BucketView| bucket_encoded_len(b) <= MAX_BUCKET_BYTES && #[trigger] bucket_bytes(b) == bytes@ implies false by {
                    lemma_bucket_layout(b);
                }
            }
            return Err(StoreError::SerializationError);
        },
    };
    let (partition_id, at2) = match read_text(bytes, at1) {
        Some(v) => v,
        None => {
            proof {
                assert forall|b: BucketView| bucket_encoded_len(b) <= MAX_BUCKET_BYTES && #[trigger] bucket_bytes(b) == bytes@ implies false by {
                    lemma_bucket_layout(b);
                }
            }
            return Err(StoreError::SerializationError);
        },
    };
    if blen - at2 < 4 {
        proof {
            assert forall|b: BucketView| bucket_encoded_len(b) <= MAX_BUCKET_BYTES && #[trigger] bucket_bytes(b) == bytes@ implies false by {
                lemma_bucket_layout(b);
            }
        }
        return Err(StoreError::SerializationError);
    }
    let tier = match read_u32(bytes, at2) {
        Some(v) => v,
        None => {
            proof {
                assert forall|b: BucketView| bucket_encoded_len(b) <= MAX_BUCKET_BYTES && #[trigger] bucket_bytes(b) == bytes@ implies false by {
                    lemma_bucket_layout(b);
                }
            }
            return Err(StoreError::SerializationError);
        },
    };
    let at3 = at2 + 4;
    let (skill_category, at4) = match read_text(bytes, at3) {
        Some(v) => v,
        None => {
            proof {
                assert forall|b: BucketView| bucket_encoded_len(b) <= MAX_BUCKET_BYTES && #[trigger] bucket_bytes(b) == bytes@ implies false by {
                    lemma_bucket_layout(b);
                }
            }
            return Err(StoreError::SerializationError);
        },
    };
    if blen - at4 != 28 {
        proof {
            assert forall|b: BucketView| bucket_encoded_len(b) <= MAX_BUCKET_BYTES && #[trigger] bucket_bytes(b) == bytes@ implies false by {
                lemma_bucket_layout(b);
            }
        }
        return Err(StoreError::SerializationError);
    }
    let score = read_u32(bytes, at4);
    let evidence_count = read_u64(bytes, at4 + 4);
    let last_updated = read_u64(bytes, at4 + 12);
    let created_at = read_u64(bytes, at4 + 20);
    match (score, evidence_count, last_updated, created_at) {
        (Some(score), Some(evidence_count), Some(last_updated), Some(created_at)) => {
            let r = ReputationBucket {
                id,
                partition_id,
                bucket: tier,
                skill_category,
                score,
                evidence_count,
                last_updated,
                created_at,
            };
            proof {
                let v = r@;
                assert(bytes@ =~= bytes@.subrange(0, at1 as int) + bytes@.subrange(at1 as int, at2 as int)
                    + bytes@.subrange(at2 as int, at3 as int) + bytes@.subrange(at3 as int, at4 as int)
                    + bytes@.subrange(at4 as int, at4 + 4) + bytes@.subrange(at4 + 4, at4 + 12)
                    + bytes@.subrange(at4 + 12, at4 + 20) + bytes@.subrange(at4 + 20, at4 + 28));
                assert(bucket_bytes(v) =~= bytes@);
                assert forall|b: BucketView| bucket_encoded_len(b) <= MAX_BUCKET_BYTES && #[trigger] bucket_bytes(b) == bytes@ implies v == b by {
                    lemma_bucket_layout(b);
                }
            }
            Ok(r)
        },
        _ => {
            proof {
                assert forall|b: BucketView| bucket_encoded_len(b) <= MAX_BUCKET_BYTES && #[trigger] bucket_bytes(b) == bytes@ implies false by {
                    lemma_bucket_layout(b);
                }
            }
            Err(StoreError::SerializationError)
        },
    }
}

/// Serializes an evidence record; fails with `SizeExceeded` when its
/// serialized form would exceed `MAX_EVIDENCE_BYTES`, never truncating.
pub fn encode_evidence(e: &ReputationEvidence) -> (r: Result<Vec<u8>, StoreError>)
    ensures
        evidence_encoded_len(e@) <= MAX_EVIDENCE_BYTES ==> r is Ok && r->Ok_0@ == evidence_bytes(e@),
        evidence_encoded_len(e@) > MAX_EVIDENCE_BYTES ==> r == Err::<Vec<u8>, StoreError>(StoreError::SizeExceeded),
        r is Ok ==> r->Ok_0@.len() == evidence_encoded_len(e@),
{
    let size: u128 = 29u128 + e.id.as_str().as_bytes().len() as u128
        + e.bucket_id.as_str().as_bytes().len() as u128 + e.evidence_type.as_str().as_bytes().len() as u128
        + e.evidence_data.as_str().as_bytes().len() as u128;
    if size > MAX_EVIDENCE_BYTES as u128 {
        return Err(StoreError::SizeExceeded);
    }
    let mut out: Vec<u8> = Vec::new();
    push_text(&mut out, &e.id);
    push_text(&mut out, &e.bucket_id);
    push_text(&mut out, &e.evidence_type);
    push_text(&mut out, &e.evidence_data);
    push_u32(&mut out, e.weight);
    out.push(if e.verified { 1u8 } else { 0u8 });
    push_u64(&mut out, e.created_at);
    assert(out@ =~= evidence_bytes(e@));
    Ok(out)
}

/// Where each field of a serialized evidence record starts.
proof fn lemma_evidence_layout(e: EvidenceView)
    requires
        evidence_encoded_len(e) <= MAX_EVIDENCE_BYTES,
    ensures
        ({
            let bytes = evidence_bytes(e);
            let at1 = text_field(e.id).len() as int;
            let at2 = at1 + text_field(e.bucket_id).len();
            let at3 = at2 + text_field(e.evidence_type).len();
            let at4 = at3 + text_field(e.evidence_data).len();
            &&& encode_utf8(e.id).len() <= u32::MAX
            &&& encode_utf8(e.bucket_id).len() <= u32::MAX
            &&& encode_utf8(e.evidence_type).len() <= u32::MAX
            &&& encode_utf8(e.evidence_data).len() <= u32::MAX
            &&& bytes.len() == at4 + 13
            &&& bytes.subrange(0, at1) == text_field(e.id)
            &&& bytes.subrange(at1, at2) == text_field(e.bucket_id)
            &&& bytes.subrange(at2, at3) == text_field(e.evidence_type)
            &&& bytes.subrange(at3, at4) == text_field(e.evidence_data)
            &&& bytes.subrange(at4, at4 + 4) == u32_le(e.weight)
            &&& bytes[at4 + 4] == if e.verified { 1u8 } else { 0u8 }
            &&& bytes.subrange(at4 + 5, at4 + 13) == u64_le(e.created_at)
        }),
{
    let bytes = evidence_bytes(e);
    let at1 = text_field(e.id).len() as int;
    let at2 = at1 + text_field(e.bucket_id).len();
    let at3 = at2 + text_field(e.evidence_type).len();
    let at4 = at3 + text_field(e.evidence_data).len();
    assert(bytes.subrange(0, at1) =~= text_field(e.id));
    assert(bytes.subrange(at1, at2) =~= text_field(e.bucket_id));
    assert(bytes.subrange(at2, at3) =~= text_field(e.evidence_type));
    assert(bytes.subrange(at3, at4) =~= text_field(e.evidence_data));
    assert(bytes.subrange(at4, at4 + 4) =~= u32_le(e.weight));
    assert(bytes.subrange(at4 + 5, at4 + 13) =~= u64_le(e.created_at));
}

/// Deserializes an evidence record. Bytes written by [`encode_evidence`] give
/// back the record that was written, field for field; any other bytes give
/// `SerializationError`.
#[verifier::spinoff_prover]
#[verifier::rlimit(80)]
pub fn decode_evidence(bytes: &Vec<u8>) -> (r: Result<ReputationEvidence, StoreError>)
    ensures
        r is Ok ==> evidence_bytes(r->Ok_0@) == bytes@,
        forall|e: EvidenceView| evidence_encoded_len(e) <= MAX_EVIDENCE_BYTES && #[trigger] evidence_bytes(e) == bytes@
            ==> r is Ok && r->Ok_0@ == e,
        r is Err ==> r->Err_0 == StoreError::SerializationError,
{
    let blen = bytes.len();
    let (id, at1) = match read_text(bytes, 0) {
        Some(v) => v,
        None => {
            proof {
                assert forall|e: EvidenceView| evidence_encoded_len(e) <= MAX_EVIDENCE_BYTES && #[trigger] evidence_bytes(e) == bytes@ implies false by {
                    lemma_evidence_layout(e);
                }
            }
            return Err(StoreError::SerializationError);
        },
    };
    let (bucket_id, at2) = match read_text(bytes, at1) {
        Some(v) => v,
        None => {
            proof {
                assert forall|e: EvidenceView| evidence_encoded_len(e) <= MAX_EVIDENCE_BYTES && #[trigger] evidence_bytes(e) == bytes@ implies false by {
                    lemma_evidence_layout(e);
                }
            }
            return Err(StoreError::SerializationError);
        },
    };
    let (evidence_type, at3) = match read_text(bytes, at2) {
        Some(v) => v,
        None => {
            proof {
                assert forall|e: EvidenceView| evidence_encoded_len(e) <= MAX_EVIDENCE_BYTES && #[trigger] evidence_bytes(e) == bytes@ implies false by {
                    lemma_evidence_layout(e);
                }
            }
            return Err(StoreError::SerializationError);
        },
    };
    let (evidence_data, at4) = match read_text(bytes, at3) {
        Some(v) => v,
        None => {
            proof {
                assert forall|e: EvidenceView| evidence_encoded_len(e) <= MAX_EVIDENCE_BYTES && #[trigger] evidence_bytes(e) == bytes@ implies false by {
                    lemma_evidence_layout(e);
                }
            }
            return Err(StoreError::SerializationError);
        },
    };
    if blen - at4 != 13 || bytes[at4 + 4] > 1 {
        proof {
            assert forall|e: EvidenceView| evidence_encoded_len(e) <= MAX_EVIDENCE_BYTES && #[trigger] evidence_bytes(e) == bytes@ implies false by {
                lemma_evidence_layout(e);
            }
        }
        return Err(StoreError::SerializationError);
    }
    let weight = read_u32(bytes, at4);
    let verified = bytes[at4 + 4] == 1;
    let created_at = read_u64(bytes, at4 + 5);
    match (weight, created_at) {
        (Some(weight), Some(created_at)) => {
            let r = ReputationEvidence { id, bucket_id, evidence_type, evidence_data, weight, verified, created_at };
            proof {
                let v = r@;
                assert(bytes@.subrange(at4 + 4, at4 + 5) =~= seq![if verified { 1u8 } else { 0u8 }]);
                assert(bytes@ =~= bytes@.subrange(0, at1 as int) + bytes@.subrange(at1 as int, at2 as int)
                    + bytes@.subrange(at2 as int, at3 as int) + bytes@.subrange(at3 as int, at4 as int)
                    + bytes@.subrange(at4 as int, at4 + 4) + bytes@.subrange(at4 + 4, at4 + 5)
                    + bytes@.subrange(at4 + 5, at4 + 13));
                assert(evidence_bytes(v) =~= bytes@);
                assert forall|e: EvidenceView| evidence_encoded_len(e) <= MAX_EVIDENCE_BYTES && #[trigger] evidence_bytes(e) == bytes@ implies v == e by {
                    lemma_evidence_layout(e);
                }
            }
            Ok(r)
        },
        _ => {
            proof {
                assert forall|e: EvidenceView| evidence_encoded_len(e) <= MAX_EVIDENCE_BYTES && #[trigger] evidence_bytes(e) == bytes@ implies false by {
                    lemma_evidence_layout(e);
                }
            }
            Err(StoreError::SerializationError)
        },
    }
}

} // verus!
