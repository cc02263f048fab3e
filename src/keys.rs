use vstd::prelude::*;
use vstd::utf8::{encode_utf8, encode_utf8_decode_utf8};

verus! {

/// Byte-wise lexicographic order: `a` sorts before `b` when, after a common
/// prefix, `a` ends first or has the smaller byte.
pub open spec fn bytes_lt(a: Seq<u8>, b: Seq<u8>) -> bool {
    exists|i: int| #[trigger] first_difference(a, b, i)
}

/// `i` is where `a` and `b` first differ, and `a` is the smaller there.
pub open spec fn first_difference(a: Seq<u8>, b: Seq<u8>, i: int) -> bool {
    &&& 0 <= i <= a.len()
    &&& i <= b.len()
    &&& a.take(i) == b.take(i)
    &&& ((i == a.len() && i < b.len()) || (i < a.len() && i < b.len() && a[i] < b[i]))
}

/// The order of record keys: byte order of their UTF-8 forms.
pub open spec fn key_lt(a: Seq<char>, b: Seq<char>) -> bool {
    bytes_lt(encode_utf8(a), encode_utf8(b))
}

proof fn lemma_prefix_index(a: Seq<u8>, b: Seq<u8>, n: int, i: int)
    requires
        0 <= i < n <= a.len(),
        n <= b.len(),
        a.take(n) == b.take(n),
    ensures
        a[i] == b[i],
{
    assert(a.take(n)[i] == a[i]);
    assert(b.take(n)[i] == b[i]);
}

/// No key sorts both before and after another.
pub proof fn lemma_key_asymmetric(a: Seq<char>, b: Seq<char>)
    ensures
        !(key_lt(a, b) && key_lt(b, a)),
        !key_lt(a, a),
{
    let (x, y) = (encode_utf8(a), encode_utf8(b));
    if bytes_lt(x, y) && bytes_lt(y, x) {
        let i = choose|i: int| first_difference(x, y, i);
        let j = choose|j: int| first_difference(y, x, j);
        if i < j {
            lemma_prefix_index(x, y, j, i);
        } else if j < i {
            lemma_prefix_index(x, y, i, j);
        }
    }
    if bytes_lt(x, x) {
        let i = choose|i: int| first_difference(x, x, i);
    }
}

/// The key order is transitive.
pub proof fn lemma_key_transitive(a: Seq<char>, b: Seq<char>, c: Seq<char>)
    requires
        key_lt(a, b),
        key_lt(b, c),
    ensures
        key_lt(a, c),
{
    let (x, y, z) = (encode_utf8(a), encode_utf8(b), encode_utf8(c));
    let i = choose|i: int| first_difference(x, y, i);
    let j = choose|j: int| first_difference(y, z, j);
    if i < j {
        assert(x.take(i) =~= z.take(i)) by {
            assert forall|k: int| 0 <= k < i implies x.take(i)[k] == z.take(i)[k] by {
                lemma_prefix_index(x, y, i, k);
                lemma_prefix_index(y, z, j, k);
            }
        }
        if i < x.len() {
            lemma_prefix_index(y, z, j, i);
        }
        assert(first_difference(x, z, i));
    } else if j < i {
        assert(x.take(j) =~= z.take(j)) by {
            assert forall|k: int| 0 <= k < j implies x.take(j)[k] == z.take(j)[k] by {
                lemma_prefix_index(x, y, i, k);
                lemma_prefix_index(y, z, j, k);
            }
        }
        lemma_prefix_index(x, y, i, j);
        assert(first_difference(x, z, j));
    } else {
        assert(x.take(i) =~= z.take(i)) by {
            assert forall|k: int| 0 <= k < i implies x.take(i)[k] == z.take(i)[k] by {
                lemma_prefix_index(x, y, i, k);
                lemma_prefix_index(y, z, j, k);
            }
        }
        assert(first_difference(x, z, i));
    }
}

/// Compares two keys: negative when `a` sorts first, zero when they are
/// equal, positive when `b` sorts first.
pub fn compare_keys(a: &String, b: &String) -> (r: i8)
    ensures
        r < 0 <==> key_lt(a@, b@),
        r == 0 <==> a@ == b@,
        r > 0 <==> key_lt(b@, a@),
{
    let x = a.as_str().as_bytes();
    let y = b.as_str().as_bytes();
    proof {
        lemma_key_asymmetric(a@, b@);
    }
    let mut i: usize = 0;
    while i < x.len() && i < y.len()
        invariant
            i <= x@.len(),
            i <= y@.len(),
            x@ == encode_utf8(a@),
            y@ == encode_utf8(b@),
            x@.take(i as int) == y@.take(i as int),
        decreases x@.len() - i,
    {
        if x[i] < y[i] {
            proof {
                assert(first_difference(x@, y@, i as int));
                lemma_key_asymmetric(a@, b@);
            }
            return -1;
        }
        if x[i] > y[i] {
            proof {
                assert(first_difference(y@, x@, i as int));
                lemma_key_asymmetric(a@, b@);
            }
            return 1;
        }
        assert(x@.take(i + 1) =~= y@.take(i + 1)) by {
            assert(x@.take(i + 1) =~= x@.take(i as int).push(x@[i as int]));
            assert(y@.take(i + 1) =~= y@.take(i as int).push(y@[i as int]));
        }
        i = i + 1;
    }
    if i == x.len() && i == y.len() {
        proof {
            assert(x@ =~= x@.take(i as int));
            assert(y@ =~= y@.take(i as int));
            encode_utf8_decode_utf8(a@);
            encode_utf8_decode_utf8(b@);
            lemma_key_asymmetric(a@, a@);
        }
        0
    } else if i == x.len() {
        proof {
            assert(first_difference(x@, y@, i as int));
            lemma_key_asymmetric(a@, b@);
        }
        -1
    } else {
        proof {
            assert(first_difference(y@, x@, i as int));
            lemma_key_asymmetric(a@, b@);
        }
        1
    }
}

} // verus!
