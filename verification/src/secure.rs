//! Secret buffers, and comparisons and selections that do not branch on secret data.
use vstd::prelude::*;
use core::cmp::Ordering;
use rand::RngCore;
use crate::bytes::append;
use crate::text;

verus! {

// --- Calls into zeroize, subtle and rand -------------------------------------------

/// `zeroize::Zeroize::zeroize` on a byte slice: every byte becomes zero.
#[verifier::external_body]
pub(crate) fn wipe(data: &mut [u8])
    ensures
        final(data)@ == Seq::new(old(data)@.len(), |i: int| 0u8),
{
    zeroize::Zeroize::zeroize(data)
}

/// `zeroize::Zeroize::zeroize` on 32 bytes in place: every byte becomes zero, and nothing
/// unwinds.
#[verifier::external_body]
pub(crate) fn wipe_32(data: &mut [u8; 32])
    ensures
        final(data)@ == Seq::new(32, |i: int| 0u8),
    no_unwind
{
    zeroize::Zeroize::zeroize(data)
}

/// `zeroize::Zeroize::zeroize` on a byte vector: its bytes are overwritten and it is empty.
#[verifier::external_body]
pub(crate) fn wipe_vec(data: &mut Vec<u8>)
    ensures
        final(data)@ == Seq::<u8>::empty(),
{
    zeroize::Zeroize::zeroize(data)
}

/// `subtle::ConstantTimeEq::ct_eq` on byte slices: true exactly where the lengths and all
/// bytes agree.
#[verifier::external_body]
fn subtle_eq(a: &[u8], b: &[u8]) -> (r: bool)
    ensures
        r == (a@ == b@),
{
    subtle::ConstantTimeEq::ct_eq(a, b).into()
}

/// One where both bits are one, and zero otherwise.
pub open spec fn both_bits(a: u8, b: u8) -> u8 {
    if a == 1 && b == 1 {
        1
    } else {
        0
    }
}

/// One where one of the bits is one, and zero otherwise.
pub open spec fn either_bit(a: u8, b: u8) -> u8 {
    if a == 1 || b == 1 {
        1
    } else {
        0
    }
}

/// `subtle::Choice::bitand` on two bits: one exactly where both are.
#[verifier::external_body]
fn choice_and(a: u8, b: u8) -> (r: u8)
    requires
        a <= 1,
        b <= 1,
    ensures
        r == both_bits(a, b),
{
    (subtle::Choice::from(a) & subtle::Choice::from(b)).unwrap_u8()
}

/// `subtle::Choice::bitor` on two bits: one exactly where one of them is.
#[verifier::external_body]
fn choice_or(a: u8, b: u8) -> (r: u8)
    requires
        a <= 1,
        b <= 1,
    ensures
        r == either_bit(a, b),
{
    (subtle::Choice::from(a) | subtle::Choice::from(b)).unwrap_u8()
}

/// `subtle::Choice::not` on a bit: the other bit.
#[verifier::external_body]
fn choice_not(a: u8) -> (r: u8)
    requires
        a <= 1,
    ensures
        r == 1 - a,
{
    (!subtle::Choice::from(a)).unwrap_u8()
}

/// `subtle::ConditionallySelectable::conditional_select` on two bits: the second if the
/// choice is one, and the first if it is zero.
#[verifier::external_body]
fn choice_select(a: u8, b: u8, choice: u8) -> (r: u8)
    requires
        a <= 1,
        b <= 1,
        choice <= 1,
    ensures
        r == if choice == 1 {
            b
        } else {
            a
        },
{
    let (x, y) = (subtle::Choice::from(a), subtle::Choice::from(b));
    <subtle::Choice as subtle::ConditionallySelectable>::conditional_select(&x, &y, subtle::Choice::from(choice)).unwrap_u8()
}

/// `rand::rngs::OsRng::fill_bytes`: fills a buffer with random bytes of the operating
/// system. Nothing is known of them.
#[verifier::external_body]
pub fn secure_random(buf: &mut [u8])
    ensures
        final(buf)@.len() == old(buf)@.len(),
{
    rand::rngs::OsRng.fill_bytes(buf)
}

// --- Buffers -----------------------------------------------------------------------

/// A byte buffer for secrets.
pub struct SecureBytes {
    data: Vec<u8>,
}

impl View for SecureBytes {
    type V = Seq<u8>;

    closed spec fn view(&self) -> Seq<u8> {
        self.data@
    }
}

impl Clone for SecureBytes {
    fn clone(&self) -> (r: Self)
        ensures
            r@ == self@,
    {
        SecureBytes::from_slice(self.data.as_slice())
    }
}

impl SecureBytes {
    /// A buffer of given bytes.
    pub fn new(data: Vec<u8>) -> (r: SecureBytes)
        ensures
            r@ == data@,
    {
        SecureBytes { data }
    }

    /// A buffer with a copy of given bytes.
    pub fn from_slice(data: &[u8]) -> (r: SecureBytes)
        ensures
            r@ == data@,
    {
        let mut copy: Vec<u8> = Vec::new();
        append(&mut copy, data);
        assert(copy@ =~= data@);
        SecureBytes { data: copy }
    }

    /// An empty buffer with room for so many bytes.
    pub fn with_capacity(capacity: usize) -> (r: SecureBytes)
        ensures
            r@ == Seq::<u8>::empty(),
    {
        SecureBytes { data: Vec::with_capacity(capacity) }
    }

    /// A buffer of zero bytes.
    pub fn zeroed(size: usize) -> (r: SecureBytes)
        ensures
            r@ == Seq::new(size as nat, |i: int| 0u8),
    {
        let mut data: Vec<u8> = Vec::new();
        while data.len() < size
            invariant
                data@.len() <= size,
                data@ == Seq::new(data@.len(), |i: int| 0u8),
            decreases size - data@.len(),
        {
            data.push(0);
            assert(data@ =~= Seq::new(data@.len(), |i: int| 0u8));
        }
        SecureBytes { data }
    }

    /// The bytes.
    pub fn as_bytes(&self) -> (r: &[u8])
        ensures
            r@ == self@,
    {
        self.data.as_slice()
    }

    /// The bytes, to be changed in place.
    pub fn as_bytes_mut(&mut self) -> (r: &mut [u8])
        ensures
            r@ == old(self)@,
            final(self)@ == final(r)@,
    {
        self.data.as_mut_slice()
    }

    /// The number of bytes.
    pub fn len(&self) -> (r: usize)
        ensures
            r == self@.len(),
    {
        self.data.len()
    }

    /// Whether there are no bytes.
    pub fn is_empty(&self) -> (r: bool)
        ensures
            r == (self@.len() == 0),
    {
        self.data.len() == 0
    }

    /// Wipes the buffer: the bytes are overwritten, and it is empty.
    pub fn zeroize(&mut self)
        ensures
            final(self)@ == Seq::<u8>::empty(),
    {
        wipe_vec(&mut self.data);
    }

    /// What may be shown of it: the number of bytes.
    pub fn debug_text(&self) -> (r: String)
        ensures
            r@ == "SecureBytes([REDACTED "@ + text::decimal(self@.len()) + " bytes])"@,
    {
        let mut s: String = "SecureBytes([REDACTED ".to_owned();
        text::push_decimal(&mut s, self.data.len() as u64);
        text::push_text(&mut s, " bytes])");
        s
    }
}

impl From<Vec<u8>> for SecureBytes {
    fn from(data: Vec<u8>) -> (r: SecureBytes)
        ensures
            r@ == data@,
    {
        SecureBytes { data }
    }
}

impl vstd::std_specs::convert::FromSpecImpl<Vec<u8>> for SecureBytes {
    open spec fn obeys_from_spec() -> bool {
        true
    }

    closed spec fn from_spec(data: Vec<u8>) -> SecureBytes {
        SecureBytes { data }
    }
}

impl From<&[u8]> for SecureBytes {
    fn from(data: &[u8]) -> (r: SecureBytes)
        ensures
            r@ == data@,
    {
        SecureBytes::from_slice(data)
    }
}

impl vstd::std_specs::convert::FromSpecImpl<&[u8]> for SecureBytes {
    open spec fn obeys_from_spec() -> bool {
        false
    }

    open spec fn from_spec(data: &[u8]) -> SecureBytes {
        choose|s: SecureBytes| s@ == data@
    }
}

/// An array for secrets.
pub struct SecureArray<const N: usize> {
    data: [u8; N],
}

impl<const N: usize> View for SecureArray<N> {
    type V = Seq<u8>;

    closed spec fn view(&self) -> Seq<u8> {
        self.data@
    }
}

impl<const N: usize> Clone for SecureArray<N> {
    fn clone(&self) -> (r: Self)
        ensures
            r@ == self@,
    {
        SecureArray { data: self.data }
    }
}

impl<const N: usize> SecureArray<N> {
    /// An array of given bytes.
    pub fn new(data: [u8; N]) -> (r: SecureArray<N>)
        ensures
            r@ == data@,
    {
        SecureArray { data }
    }

    /// An array of zero bytes.
    pub fn zeroed() -> (r: SecureArray<N>)
        ensures
            r@ == Seq::new(N as nat, |i: int| 0u8),
    {
        let data: [u8; N] = [0u8; N];
        assert(data@ =~= Seq::new(N as nat, |i: int| 0u8));
        SecureArray { data }
    }

    /// The bytes.
    pub fn as_bytes(&self) -> (r: &[u8; N])
        ensures
            r@ == self@,
    {
        &self.data
    }

    /// The bytes, to be changed in place.
    pub fn as_bytes_mut(&mut self) -> (r: &mut [u8; N])
        ensures
            r@ == old(self)@,
            final(self)@ == final(r)@,
    {
        &mut self.data
    }

    /// Wipes the array: every byte becomes zero.
    pub fn zeroize(&mut self)
        ensures
            final(self)@ == Seq::new(N as nat, |i: int| 0u8),
    {
        wipe(&mut self.data);
    }

    /// What may be shown of it: the number of bytes.
    pub fn debug_text(&self) -> (r: String)
        ensures
            r@ == "SecureArray<"@ + text::decimal(N as nat) + ">([REDACTED])"@,
    {
        let mut s: String = "SecureArray<".to_owned();
        text::push_decimal(&mut s, N as u64);
        text::push_text(&mut s, ">([REDACTED])");
        s
    }
}

impl<const N: usize> From<[u8; N]> for SecureArray<N> {
    fn from(data: [u8; N]) -> (r: SecureArray<N>)
        ensures
            r@ == data@,
    {
        SecureArray { data }
    }
}

impl<const N: usize> vstd::std_specs::convert::FromSpecImpl<[u8; N]> for SecureArray<N> {
    open spec fn obeys_from_spec() -> bool {
        true
    }

    closed spec fn from_spec(data: [u8; N]) -> SecureArray<N> {
        SecureArray { data }
    }
}

/// 32 random bytes of the operating system.
pub fn secure_random_32() -> (r: SecureArray<32>)
    ensures
        r@.len() == 32,
{
    let mut bytes: [u8; 32] = [0u8; 32];
    secure_random(&mut bytes);
    SecureArray::new(bytes)
}

/// 64 random bytes of the operating system.
pub fn secure_random_64() -> (r: SecureArray<64>)
    ensures
        r@.len() == 64,
{
    let mut bytes: [u8; 64] = [0u8; 64];
    secure_random(&mut bytes);
    SecureArray::new(bytes)
}

/// Wipes a slice: every byte becomes zero.
pub fn secure_zero(data: &mut [u8])
    ensures
        final(data)@ == Seq::new(old(data)@.len(), |i: int| 0u8),
{
    wipe(data);
}

// --- Comparison --------------------------------------------------------------------

/// Whether two byte slices are equal, in time that does not depend on where they differ.
pub fn ct_eq(a: &[u8], b: &[u8]) -> (r: bool)
    ensures
        r == (a@ == b@),
{
    if a.len() != b.len() {
        return false;
    }
    subtle_eq(a, b)
}

/// Whether `a` is below `b`: shorter, or of the same length with the smaller byte at the
/// first place where they differ.
pub open spec fn below(a: Seq<u8>, b: Seq<u8>) -> bool {
    a.len() < b.len() || (a.len() == b.len() && exists|i: int|
        #![trigger a[i]]
        0 <= i < a.len() && a[i] < b[i] && a.take(i) == b.take(i))
}

proof fn lemma_below_once(a: Seq<u8>, b: Seq<u8>, i: int)
    requires
        a.len() == b.len(),
        0 <= i < a.len(),
        a[i] < b[i],
        a.take(i) == b.take(i),
    ensures
        below(a, b),
        !below(b, a),
        a != b,
{
    assert(a[i] < b[i]);
    if below(b, a) {
        let j = choose|j: int|
            #![trigger b[j]]
            0 <= j < b.len() && b[j] < a[j] && b.take(j) == a.take(j);
        if j < i {
            assert(a.take(i)[j] == a[j] && b.take(i)[j] == b[j]);
        } else if i < j {
            assert(a.take(j)[i] == a[i] && b.take(j)[i] == b[i]);
        }
    }
}

/// The first difference of two slices of the same length, as two bits: that `a` is above,
/// and that `b` is. Every byte is looked at.
fn first_difference(a: &[u8], b: &[u8]) -> (r: (u8, u8))
    requires
        a@.len() == b@.len(),
    ensures
        r.0 + r.1 <= 1,
        r.0 == 1 <==> below(b@, a@),
        r.1 == 1 <==> below(a@, b@),
        r.0 == 0 && r.1 == 0 <==> a@ == b@,
{
    let mut gt: u8 = 0;
    let mut lt: u8 = 0;
    let mut undecided: u8 = 1;
    let mut i: usize = 0;
    assert(a@.take(0) =~= b@.take(0));
    while i < a.len()
        invariant
            a@.len() == b@.len(),
            i <= a@.len(),
            gt <= 1,
            lt <= 1,
            undecided <= 1,
            undecided == 1 ==> gt == 0 && lt == 0 && a@.take(i as int) == b@.take(i as int),
            undecided == 0 ==> gt + lt == 1,
            gt == 1 ==> exists|j: int|
                #![trigger b@[j]]
                0 <= j < i && b@[j] < a@[j] && b@.take(j) == a@.take(j),
            lt == 1 ==> exists|j: int|
                #![trigger a@[j]]
                0 <= j < i && a@[j] < b@[j] && a@.take(j) == b@.take(j),
        decreases a@.len() - i,
    {
        let x: u16 = a[i] as u16;
        let y: u16 = b[i] as u16;
        proof {
            assert(x <= 255 && y <= 255 ==> (((256 + x - y) as u16) >> 8) == if x >= y {
                1u16
            } else {
                0u16
            }) by (bit_vector);
            assert(x <= 255 && y <= 255 ==> (((256 + y - x) as u16) >> 8) == if y >= x {
                1u16
            } else {
                0u16
            }) by (bit_vector);
        }
        let x_below: u8 = 1 - ((256 + x - y) >> 8) as u8;
        let y_below: u8 = 1 - ((256 + y - x) >> 8) as u8;
        let ghost was = undecided;
        gt = choice_select(gt, 1, choice_and(undecided, y_below));
        lt = choice_select(lt, 1, choice_and(undecided, x_below));
        undecided = choice_and(undecided, choice_not(choice_or(y_below, x_below)));
        proof {
            if was == 1 {
                if a@[i as int] == b@[i as int] {
                    assert(a@.take(i + 1) =~= a@.take(i as int).push(a@[i as int]));
                    assert(b@.take(i + 1) =~= b@.take(i as int).push(b@[i as int]));
                } else if a@[i as int] < b@[i as int] {
                    assert(lt == 1);
                } else {
                    assert(b@[i as int] < a@[i as int]);
                    assert(gt == 1);
                }
            }
        }
        i = i + 1;
    }
    proof {
        assert(a@.take(i as int) =~= a@);
        assert(b@.take(i as int) =~= b@);
        if gt == 1 {
            let j = choose|j: int|
                #![trigger b@[j]]
                0 <= j < i && b@[j] < a@[j] && b@.take(j) == a@.take(j);
            lemma_below_once(b@, a@, j);
        }
        if lt == 1 {
            let j = choose|j: int|
                #![trigger a@[j]]
                0 <= j < i && a@[j] < b@[j] && a@.take(j) == b@.take(j);
            lemma_below_once(a@, b@, j);
        }
    }
    (gt, lt)
}

/// The place of an outcome among "below", "equal" and "above".
fn outcome_place(gt: u8, lt: u8) -> (r: usize)
    requires
        gt + lt <= 1,
    ensures
        r == 1 + gt - lt,
{
    1 + gt as usize - lt as usize
}

/// Compares two byte slices: by length first, which is not secret, and then by the first
/// byte that differs, in time that does not depend on where that is.
pub fn ct_cmp(a: &[u8], b: &[u8]) -> (r: Ordering)
    ensures
        r == Ordering::Less <==> below(a@, b@),
        r == Ordering::Greater <==> below(b@, a@),
        r == Ordering::Equal <==> a@ == b@,
{
    if a.len() < b.len() {
        return Ordering::Less;
    }
    if a.len() > b.len() {
        return Ordering::Greater;
    }
    let (gt, lt) = first_difference(a, b);
    let orderings: [Ordering; 3] = [Ordering::Less, Ordering::Equal, Ordering::Greater];
    orderings[outcome_place(gt, lt)]
}

/// Whether a slice holds only zeros. Every byte is looked at.
pub fn is_zero(data: &[u8]) -> (r: bool)
    ensures
        r == (forall|i: int| 0 <= i < data@.len() ==> data@[i] == 0),
{
    let mut acc: u8 = 0;
    let mut i: usize = 0;
    while i < data.len()
        invariant
            i <= data@.len(),
            acc == 0 <==> forall|j: int| 0 <= j < i ==> data@[j] == 0,
        decreases data@.len() - i,
    {
        let byte: u8 = data[i];
        assert((acc | byte == 0) <==> acc == 0 && byte == 0) by (bit_vector);
        acc = acc | byte;
        i = i + 1;
    }
    acc == 0
}

/// Whether a hash is the expected one, in constant time.
pub fn verify_hash(computed: &[u8; 32], expected: &[u8; 32]) -> (r: bool)
    ensures
        r == (computed@ == expected@),
{
    ct_eq(computed, expected)
}

/// Whether an authentication code is the expected one, in constant time.
pub fn verify_mac(computed: &[u8], expected: &[u8]) -> (r: bool)
    ensures
        r == (computed@ == expected@),
{
    ct_eq(computed, expected)
}

// --- Selection ---------------------------------------------------------------------

/// All ones for a condition that holds, and all zeros for one that does not.
fn mask_u8(condition: bool) -> (r: u8)
    ensures
        r == if condition {
            0xFFu8
        } else {
            0u8
        },
{
    let bit: u8 = condition as u8;
    0u8.wrapping_sub(bit)
}

fn mask_u64(condition: bool) -> (r: u64)
    ensures
        r == if condition {
            0xFFFF_FFFF_FFFF_FFFFu64
        } else {
            0u64
        },
{
    let bit: u64 = condition as u64;
    0u64.wrapping_sub(bit)
}

fn masked_u8(mask: u8, a: u8, b: u8) -> (r: u8)
    requires
        mask == 0xFF || mask == 0,
    ensures
        r == if mask == 0xFF {
            a
        } else {
            b
        },
{
    assert(mask == 0xFF ==> (a & mask) | (b & !mask) == a) by (bit_vector);
    assert(mask == 0 ==> (a & mask) | (b & !mask) == b) by (bit_vector);
    (a & mask) | (b & !mask)
}

/// The first byte if a condition holds, and the second otherwise, without a branch.
pub fn ct_select_u8(condition: bool, a: u8, b: u8) -> (r: u8)
    ensures
        r == if condition {
            a
        } else {
            b
        },
{
    masked_u8(mask_u8(condition), a, b)
}

/// The first number if a condition holds, and the second otherwise, without a branch.
pub fn ct_select_u64(condition: bool, a: u64, b: u64) -> (r: u64)
    ensures
        r == if condition {
            a
        } else {
            b
        },
{
    let mask: u64 = mask_u64(condition);
    assert(mask == 0xFFFF_FFFF_FFFF_FFFF ==> (a & mask) | (b & !mask) == a) by (bit_vector);
    assert(mask == 0 ==> (a & mask) | (b & !mask) == b) by (bit_vector);
    (a & mask) | (b & !mask)
}

/// Copies the first slice if a condition holds, and the second otherwise, without a branch.
/// All three have the same length.
pub fn ct_select_slice(condition: bool, dst: &mut [u8], a: &[u8], b: &[u8])
    requires
        old(dst)@.len() == a@.len(),
        old(dst)@.len() == b@.len(),
    ensures
        final(dst)@ == if condition {
            a@
        } else {
            b@
        },
{
    let mask: u8 = mask_u8(condition);
    let n: usize = dst.len();
    let mut i: usize = 0;
    while i < n
        invariant
            i <= n,
            n == dst@.len(),
            n == a@.len(),
            n == b@.len(),
            mask == if condition {
                0xFFu8
            } else {
                0u8
            },
            forall|j: int|
                0 <= j < i ==> #[trigger] dst@[j] == if condition {
                    a@[j]
                } else {
                    b@[j]
                },
        decreases n - i,
    {
        let byte: u8 = masked_u8(mask, a[i], b[i]);
        dst[i] = byte;
        i = i + 1;
    }
    proof {
        if condition {
            assert(dst@ =~= a@);
        } else {
            assert(dst@ =~= b@);
        }
    }
}

/// Copies a slice if a condition holds, without a branch. Both have the same length.
pub fn ct_copy_if(condition: bool, dst: &mut [u8], src: &[u8])
    requires
        old(dst)@.len() == src@.len(),
    ensures
        final(dst)@ == if condition {
            src@
        } else {
            old(dst)@
        },
{
    let mask: u8 = mask_u8(condition);
    let n: usize = dst.len();
    let ghost before = dst@;
    let mut i: usize = 0;
    while i < n
        invariant
            i <= n,
            n == dst@.len(),
            n == src@.len(),
            n == before.len(),
            mask == if condition {
                0xFFu8
            } else {
                0u8
            },
            forall|j: int|
                0 <= j < i ==> #[trigger] dst@[j] == if condition {
                    src@[j]
                } else {
                    before[j]
                },
            forall|j: int| i <= j < n ==> #[trigger] dst@[j] == before[j],
        decreases n - i,
    {
        let byte: u8 = masked_u8(mask, src[i], dst[i]);
        dst[i] = byte;
        i = i + 1;
    }
    proof {
        if condition {
            assert(dst@ =~= src@);
        } else {
            assert(dst@ =~= before);
        }
    }
}

/// The order of byte strings is total: of two strings that differ exactly one is below the
/// other, and no string is below itself.
pub proof fn law_order_is_total(a: Seq<u8>, b: Seq<u8>)
    ensures
        a == b ==> !below(a, b) && !below(b, a),
        a != b ==> below(a, b) != below(b, a),
{
    if a.len() == b.len() {
        if a == b {
            if below(a, b) {
                let i = choose|i: int|
                    #![trigger a[i]]
                    0 <= i < a.len() && a[i] < b[i] && a.take(i) == b.take(i);
                assert(a[i] == b[i]);
            }
        } else {
            assert(a.take(0) =~= b.take(0));
            lemma_first_difference(a, b, 0);
        }
    }
}

proof fn lemma_first_difference(a: Seq<u8>, b: Seq<u8>, i: int)
    requires
        a.len() == b.len(),
        a != b,
        0 <= i <= a.len(),
        a.take(i) == b.take(i),
    ensures
        below(a, b) != below(b, a),
    decreases a.len() - i,
{
    if i == a.len() {
        assert(a.take(i) =~= a);
        assert(b.take(i) =~= b);
    } else if a[i] < b[i] {
        lemma_below_once(a, b, i);
    } else if b[i] < a[i] {
        lemma_below_once(b, a, i);
    } else {
        assert(a.take(i + 1) =~= a.take(i).push(a[i]));
        assert(b.take(i + 1) =~= b.take(i).push(b[i]));
        lemma_first_difference(a, b, i + 1);
    }
}

} // verus!
