//! SHA-256 digests and the framing of what goes into them.

use vstd::prelude::*;

verus! {

/// The SHA-256 digest of a byte string.
pub uninterp spec fn sha256_digest(data: Seq<u8>) -> [u8; 32];

/// `sha2::Sha256::digest` returns the SHA-256 digest of its argument.
#[verifier::external_body]
pub(crate) fn sha256(data: &[u8]) -> (digest: [u8; 32])
    ensures
        digest == sha256_digest(data@),
{
    <sha2::Sha256 as sha2::Digest>::digest(data).into()
}

/// The eight bytes of `n`, the most significant first.
pub open spec fn big_endian(n: u64) -> Seq<u8> {
    Seq::new(8, |i: int| ((n >> ((7 - i) * 8) as u64) & 0xff) as u8)
}

/// A byte string with its length in front of it.
pub open spec fn length_prefixed(data: Seq<u8>) -> Seq<u8> {
    big_endian(data.len() as u64) + data
}

/// Puts the length of `data` in front of it.
pub fn prefix_length(data: &Vec<u8>) -> (framed: Vec<u8>)
    ensures
        framed@ == length_prefixed(data@),
{
    let n: u64 = data.len() as u64;
    let mut framed: Vec<u8> = Vec::new();
    let mut i: u64 = 0;
    while i < 8
        invariant
            i <= 8,
            framed@.len() == i,
            n == data@.len() as u64,
            forall|j: int| 0 <= j < i ==> framed@[j] == big_endian(n)[j],
        decreases 8 - i,
    {
        framed.push(((n >> ((7 - i) * 8)) & 0xff) as u8);
        i = i + 1;
    }
    assert(framed@ =~= big_endian(n));
    extend(&mut framed, data);
    framed
}

/// Appends the bytes of `more` to `data`.
pub fn extend(data: &mut Vec<u8>, more: &[u8])
    ensures
        final(data)@ == old(data)@ + more@,
{
    let ghost before = data@;
    let mut i: usize = 0;
    assert(more@.take(0) =~= Seq::empty());
    while i < more.len()
        invariant
            i <= more@.len(),
            data@ == before + more@.take(i as int),
        decreases more@.len() - i,
    {
        data.push(more[i]);
        i = i + 1;
        assert(data@ =~= before + more@.take(i as int));
    }
    assert(more@.take(i as int) =~= more@);
}

/// Tests two digests for equality.
pub fn same_digest(a: &[u8; 32], b: &[u8; 32]) -> (same: bool)
    ensures
        same == (*a == *b),
{
    let mut i: usize = 0;
    while i < 32
        invariant
            i <= 32,
            forall|j: int| 0 <= j < i ==> a@[j] == b@[j],
        decreases 32 - i,
    {
        if a[i] != b[i] {
            assert(a@[i as int] != b@[i as int]);
            return false;
        }
        i = i + 1;
    }
    assert(*a =~= *b);
    true
}

} // verus!
