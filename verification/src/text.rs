//! Comparisons of strings: the byte order of keys, equality and prefixes.

use vstd::prelude::*;
use vstd::string::*;
use vstd::utf8::*;

verus! {

/// `a` comes before `b` in the lexicographic order of byte strings: after a common
/// prefix of some length, either `a` ends and `b` goes on, or `a` has the smaller byte.
pub open spec fn bytes_before(a: Seq<u8>, b: Seq<u8>) -> bool {
    exists|k: int|
        0 <= k <= a.len() && k < b.len() && #[trigger] agree_up_to(a, b, k) && (k == a.len() || a[k]
            < b[k])
}

/// `a` and `b` hold the same bytes below index `k`.
pub open spec fn agree_up_to(a: Seq<u8>, b: Seq<u8>, k: int) -> bool {
    forall|i: int| 0 <= i < k ==> a[i] == b[i]
}

/// The order of object keys: strings are compared by their UTF-8 bytes.
pub open spec fn key_before(a: Seq<char>, b: Seq<char>) -> bool {
    bytes_before(encode_utf8(a), encode_utf8(b))
}

/// Where one key stands relative to another.
pub enum KeyOrder {
    Before,
    Same,
    After,
}

proof fn lemma_bytes_before_transitive(a: Seq<u8>, b: Seq<u8>, c: Seq<u8>)
    requires
        bytes_before(a, b),
        bytes_before(b, c),
    ensures
        bytes_before(a, c),
{
    let k = choose|k: int|
        0 <= k <= a.len() && k < b.len() && #[trigger] agree_up_to(a, b, k) && (k == a.len() || a[k]
            < b[k]);
    let m = choose|m: int|
        0 <= m <= b.len() && m < c.len() && #[trigger] agree_up_to(b, c, m) && (m == b.len() || b[m]
            < c[m]);
    let n = if k <= m {
        k
    } else {
        m
    };
    assert(agree_up_to(a, c, n));
}

proof fn lemma_bytes_before_irreflexive(a: Seq<u8>)
    ensures
        !bytes_before(a, a),
{
}

/// The order of keys is transitive.
pub proof fn lemma_key_before_transitive(a: Seq<char>, b: Seq<char>, c: Seq<char>)
    requires
        key_before(a, b),
        key_before(b, c),
    ensures
        key_before(a, c),
{
    lemma_bytes_before_transitive(encode_utf8(a), encode_utf8(b), encode_utf8(c));
}

/// No key comes before itself.
pub proof fn lemma_key_before_irreflexive(a: Seq<char>)
    ensures
        !key_before(a, a),
{
    lemma_bytes_before_irreflexive(encode_utf8(a));
}

proof fn lemma_encoding_injective(a: Seq<char>, b: Seq<char>)
    requires
        encode_utf8(a) == encode_utf8(b),
    ensures
        a == b,
{
    encode_utf8_decode_utf8(a);
    encode_utf8_decode_utf8(b);
}

/// Compares two keys by their bytes.
pub fn key_order(a: &str, b: &str) -> (order: KeyOrder)
    ensures
        order is Before <==> key_before(a@, b@),
        order is Same <==> a@ == b@,
        order is After <==> key_before(b@, a@),
{
    let x = a.as_bytes();
    let y = b.as_bytes();
    let mut i: usize = 0;
    proof {
        lemma_key_before_irreflexive(a@);
        if key_before(a@, b@) && key_before(b@, a@) {
            lemma_key_before_transitive(a@, b@, a@);
        }
    }
    while i < x.len() && i < y.len()
        invariant
            i <= x@.len(),
            i <= y@.len(),
            x@ == encode_utf8(a@),
            y@ == encode_utf8(b@),
            agree_up_to(x@, y@, i as int),
            !key_before(a@, a@),
            !(key_before(a@, b@) && key_before(b@, a@)),
        decreases x@.len() - i,
    {
        if x[i] < y[i] {
            return KeyOrder::Before;
        }
        if x[i] > y[i] {
            assert(agree_up_to(y@, x@, i as int));
            return KeyOrder::After;
        }
        i = i + 1;
    }
    if i < y.len() {
        KeyOrder::Before
    } else if i < x.len() {
        assert(agree_up_to(y@, x@, i as int));
        KeyOrder::After
    } else {
        proof {
            assert(x@ =~= y@);
            lemma_encoding_injective(a@, b@);
        }
        KeyOrder::Same
    }
}

/// Tests two strings for equality.
pub fn same_text(a: &str, b: &str) -> (same: bool)
    ensures
        same == (a@ == b@),
{
    match key_order(a, b) {
        KeyOrder::Same => true,
        _ => false,
    }
}

/// Tests whether `text` begins with `prefix`.
pub fn starts_with(text: &str, prefix: &str) -> (yes: bool)
    ensures
        yes == prefix@.is_prefix_of(text@),
{
    let n = prefix.unicode_len();
    if text.unicode_len() < n {
        return false;
    }
    let mut i: usize = 0;
    while i < n
        invariant
            i <= n,
            n == prefix@.len(),
            n <= text@.len(),
            forall|j: int| 0 <= j < i ==> text@[j] == prefix@[j],
        decreases n - i,
    {
        if text.get_char(i) != prefix.get_char(i) {
            assert(prefix@[i as int] != text@.subrange(0, n as int)[i as int]);
            return false;
        }
        i = i + 1;
    }
    assert(prefix@ =~= text@.subrange(0, n as int));
    true
}

} // verus!
