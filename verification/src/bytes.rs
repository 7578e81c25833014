//! Byte-string helpers: comparison, copying between slices and fixed arrays.
use vstd::prelude::*;
use vstd::string::*;

verus! {

/// Whether two byte slices hold the same bytes.
pub fn bytes_equal(a: &[u8], b: &[u8]) -> (r: bool)
    ensures
        r == (a@ == b@),
{
    if a.len() != b.len() {
        return false;
    }
    let mut i: usize = 0;
    while i < a.len()
        invariant
            a@.len() == b@.len(),
            i <= a@.len(),
            forall|j: int| 0 <= j < i ==> a@[j] == b@[j],
        decreases a@.len() - i,
    {
        if a[i] != b[i] {
            return false;
        }
        i = i + 1;
    }
    assert(a@ =~= b@);
    true
}

/// The 32 bytes of `s` that start at `from`.
pub fn array_32(s: &[u8], from: usize) -> (r: [u8; 32])
    requires
        from + 32 <= s@.len(),
    ensures
        r@ == s@.subrange(from as int, from + 32),
{
    let n: usize = s.len();
    let mut r: [u8; 32] = [0u8; 32];
    let mut i: usize = 0;
    while i < 32
        invariant
            i <= 32,
            n == s@.len(),
            from + 32 <= n,
            forall|j: int| 0 <= j < i ==> r@[j] == s@[from + j],
        decreases 32 - i,
    {
        r[i] = s[from + i];
        i = i + 1;
    }
    assert(r@ =~= s@.subrange(from as int, from + 32));
    r
}

/// The bytes of a text: what a protocol tag contributes to a hash input.
pub open spec fn tag(s: &str) -> Seq<u8> {
    s.spec_bytes()
}

/// Appends the bytes of a text to a vector.
pub fn append_tag(v: &mut Vec<u8>, s: &str)
    ensures
        final(v)@ == old(v)@ + tag(s),
{
    append(v, s.as_bytes());
}

/// Appends a 64-bit number, least significant byte first.
pub fn append_u64(v: &mut Vec<u8>, n: u64)
    ensures
        final(v)@ == old(v)@ + vstd::bytes::spec_u64_to_le_bytes(n),
{
    append(v, vstd::bytes::u64_to_le_bytes(n).as_slice());
}

/// A list of 32-byte strings, one after the other.
pub open spec fn flat(s: Seq<[u8; 32]>) -> Seq<u8>
    decreases s.len(),
{
    if s.len() == 0 {
        Seq::empty()
    } else {
        flat(s.drop_last()) + s.last()@
    }
}

/// Appends a list of 32-byte strings, one after the other.
pub fn append_flat(v: &mut Vec<u8>, s: &Vec<[u8; 32]>)
    ensures
        final(v)@ == old(v)@ + flat(s@),
{
    let mut i: usize = 0;
    assert(v@ =~= old(v)@ + flat(s@.take(0)));
    while i < s.len()
        invariant
            i <= s@.len(),
            v@ == old(v)@ + flat(s@.take(i as int)),
        decreases s@.len() - i,
    {
        append(v, &s[i]);
        assert(s@.take(i + 1).drop_last() =~= s@.take(i as int));
        assert(s@.take(i + 1).last() == s@[i as int]);
        assert(v@ =~= old(v)@ + flat(s@.take(i + 1)));
        i = i + 1;
    }
    assert(s@.take(i as int) =~= s@);
}

/// Appends the bytes of a slice to a vector.
pub fn append(v: &mut Vec<u8>, s: &[u8])
    ensures
        final(v)@ == old(v)@ + s@,
{
    v.extend_from_slice(s);
    assert(v@ =~= old(v)@ + s@);
}

/// Two strings that are the same and have heads of one length have the same heads and the
/// same tails.
pub proof fn lemma_same_heads(a1: Seq<u8>, b1: Seq<u8>, a2: Seq<u8>, b2: Seq<u8>)
    requires
        a1.len() == a2.len(),
        a1 + b1 == a2 + b2,
    ensures
        a1 == a2,
        b1 == b2,
{
    let n = a1.len() as int;
    assert((a1 + b1).take(n) =~= a1);
    assert((a2 + b2).take(n) =~= a2);
    assert((a1 + b1).skip(n) =~= b1);
    assert((a2 + b2).skip(n) =~= b2);
}

/// Two strings that are the same and have tails of one length have the same heads and the
/// same tails.
pub proof fn lemma_same_tails(a1: Seq<u8>, b1: Seq<u8>, a2: Seq<u8>, b2: Seq<u8>)
    requires
        b1.len() == b2.len(),
        a1 + b1 == a2 + b2,
    ensures
        a1 == a2,
        b1 == b2,
{
    assert((a1 + b1).len() == a1.len() + b1.len());
    assert((a2 + b2).len() == a2.len() + b2.len());
    lemma_same_heads(a1, b1, a2, b2);
}

/// The eight bytes of a number determine it.
pub proof fn lemma_u64_bytes(a: u64, b: u64)
    ensures
        vstd::bytes::spec_u64_to_le_bytes(a).len() == 8,
        vstd::bytes::spec_u64_to_le_bytes(a) == vstd::bytes::spec_u64_to_le_bytes(b) ==> a == b,
{
    vstd::bytes::lemma_auto_spec_u64_to_from_le_bytes();
    assert(vstd::bytes::spec_u64_to_le_bytes(a).len() == 8);
    assert(vstd::bytes::spec_u64_to_le_bytes(b).len() == 8);
}

/// The four bytes of a number determine it.
pub proof fn lemma_u32_bytes(a: u32, b: u32)
    ensures
        vstd::bytes::spec_u32_to_le_bytes(a).len() == 4,
        vstd::bytes::spec_u32_to_le_bytes(a) == vstd::bytes::spec_u32_to_le_bytes(b) ==> a == b,
{
    vstd::bytes::lemma_auto_spec_u32_to_from_le_bytes();
    assert(vstd::bytes::spec_u32_to_le_bytes(a).len() == 4);
    assert(vstd::bytes::spec_u32_to_le_bytes(b).len() == 4);
}

/// Lists of one length whose strings, one after the other, are the same are the same lists.
pub proof fn lemma_flat_determines(a: Seq<[u8; 32]>, b: Seq<[u8; 32]>)
    requires
        a.len() == b.len(),
        flat(a) == flat(b),
    ensures
        a == b,
    decreases a.len(),
{
    if a.len() > 0 {
        lemma_same_tails(flat(a.drop_last()), a.last()@, flat(b.drop_last()), b.last()@);
        lemma_flat_determines(a.drop_last(), b.drop_last());
        assert(a.last()@ =~= b.last()@ ==> a.last() == b.last());
        assert(a =~= a.drop_last().push(a.last()));
        assert(b =~= b.drop_last().push(b.last()));
    } else {
        assert(a =~= b);
    }
}

/// Different texts have different bytes.
pub proof fn lemma_tags_differ(a: &str, b: &str)
    requires
        a@ != b@,
    ensures
        tag(a) != tag(b),
{
    vstd::utf8::encode_utf8_decode_utf8(a@);
    vstd::utf8::encode_utf8_decode_utf8(b@);
}

/// The sixteen bytes of a number determine it.
pub proof fn lemma_u128_bytes(a: u128, b: u128)
    ensures
        vstd::bytes::spec_u128_to_le_bytes(a).len() == 16,
        vstd::bytes::spec_u128_to_le_bytes(a) == vstd::bytes::spec_u128_to_le_bytes(b) ==> a == b,
{
    vstd::bytes::lemma_auto_spec_u128_to_from_le_bytes();
    assert(vstd::bytes::spec_u128_to_le_bytes(a).len() == 16);
    assert(vstd::bytes::spec_u128_to_le_bytes(b).len() == 16);
}

} // verus!
