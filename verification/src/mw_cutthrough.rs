//! Cut-through: a spent output and the input that spends it are pruned, and the kernel of
//! the transaction stays.
//!
//! A kernel carries the excess `x*G + fee*H`, where `x` is the blinding of the outputs less that
//! of the inputs, and a Schnorr signature that proves knowledge of `x`: what is left of the
//! excess without the fee has no part on `H`.
use vstd::prelude::*;
use crate::bytes;
use crate::bytes::{append, append_tag, append_u64, array_32};
use crate::constants::MW_CUTTHROUGH_DEPTH;
use crate::curve;
use crate::error::{Error, Result};
use crate::field;
use crate::group;
use crate::group::{RistrettoPoint, Scalar};
use crate::hashing;
use crate::spark_balance;
use crate::spark_balance::sum_scalars;

verus! {

/// The approximate size of a kernel in bytes.
pub const MW_KERNEL_SIZE: usize = 96;

/// The bytes that pruning a pair of about 500 bytes saves, beside its kernel.
pub const PAIR_SAVING: u64 = 404;

/// What stays of a transaction: its excess, the signature over it, the fee and the height.
#[derive(Debug, PartialEq, Eq)]
pub struct MwKernel {
    /// The excess, encoded. It need not be a group element until it is checked.
    pub excess: [u8; 32],
    /// The signature over the excess.
    pub signature: Vec<u8>,
    /// The fee.
    pub fee: u64,
    /// The height at which the kernel was made.
    pub height: u64,
}

/// Whether two kernels hold the same.
pub open spec fn same_kernel(a: MwKernel, b: MwKernel) -> bool {
    a.excess == b.excess && a.signature@ == b.signature@ && a.fee == b.fee && a.height == b.height
}

impl Clone for MwKernel {
    fn clone(&self) -> (r: Self)
        ensures
            same_kernel(r, *self),
    {
        let mut signature: Vec<u8> = Vec::new();
        append(&mut signature, self.signature.as_slice());
        assert(signature@ =~= self.signature@);
        MwKernel { excess: self.excess, signature, fee: self.fee, height: self.height }
    }
}

impl MwKernel {
    /// The excess, if its bytes encode a group element.
    pub fn excess_point(&self) -> (r: Option<RistrettoPoint>)
        ensures
            match r {
                Some(p) => group::ristretto_log(self.excess@) == Some(p@),
                None => group::ristretto_log(self.excess@) is None,
            },
    {
        RistrettoPoint::decompress(&self.excess)
    }

    /// The kernel as one whose excess was checked.
    pub fn validate(self) -> (r: Option<ValidatedMwKernel>)
        ensures
            match r {
                Some(v) => v.kernel() == self && group::ristretto_log(self.excess@) is Some,
                None => group::ristretto_log(self.excess@) is None,
            },
    {
        match self.excess_point() {
            Some(_) => Some(ValidatedMwKernel { inner: self }),
            None => None,
        }
    }
}

/// A kernel whose excess is a group element.
#[derive(Debug, PartialEq, Eq)]
pub struct ValidatedMwKernel {
    inner: MwKernel,
}

impl Clone for ValidatedMwKernel {
    fn clone(&self) -> (r: Self)
        ensures
            same_kernel(r.kernel(), self.kernel()),
    {
        proof {
            use_type_invariant(self);
        }
        ValidatedMwKernel { inner: self.inner.clone() }
    }
}

impl ValidatedMwKernel {
    #[verifier::type_invariant]
    closed spec fn checked(self) -> bool {
        group::ristretto_log(self.inner.excess@) is Some
    }

    /// The kernel.
    pub closed spec fn kernel(self) -> MwKernel {
        self.inner
    }

    /// The kernel, by reference.
    pub fn as_kernel(&self) -> (r: &MwKernel)
        ensures
            *r == self.kernel(),
            group::ristretto_log(r.excess@) is Some,
    {
        proof {
            use_type_invariant(self);
        }
        &self.inner
    }

    /// The kernel, by value.
    pub fn into_kernel(self) -> (r: MwKernel)
        ensures
            r == self.kernel(),
            group::ristretto_log(r.excess@) is Some,
    {
        proof {
            use_type_invariant(&self);
        }
        self.inner
    }

    /// The excess.
    pub fn excess_point(&self) -> (r: RistrettoPoint)
        ensures
            group::ristretto_log(self.kernel().excess@) == Some(r@),
    {
        proof {
            use_type_invariant(self);
        }
        match self.inner.excess_point() {
            Some(p) => p,
            None => RistrettoPoint::identity(),
        }
    }
}

/// An output and the input that spends it, on the way to being pruned.
#[derive(Clone, Debug, PartialEq, Eq)]
pub struct CutThroughCandidate {
    /// The commitment of the output.
    pub spent_commitment: [u8; 32],
    /// The commitment of the input.
    pub input_commitment: [u8; 32],
    /// The height at which the output was made.
    pub created_at: u64,
    /// The height at which it was spent.
    pub spent_at: u64,
    /// The kernel that stays.
    pub kernel: MwKernel,
}

/// Whether two byte strings encode the same group element.
pub open spec fn same_point(a: Seq<u8>, b: Seq<u8>) -> bool {
    group::ristretto_log(a) is Some && group::ristretto_log(a) == group::ristretto_log(b)
}

/// Whether two commitments are the same group element.
pub fn verify_cut_through(input: &[u8; 32], output: &[u8; 32]) -> (r: bool)
    ensures
        r == same_point(input@, output@),
{
    let p_in = match RistrettoPoint::decompress(input) {
        Some(p) => p,
        None => {
            return false;
        },
    };
    let p_out = match RistrettoPoint::decompress(output) {
        Some(p) => p,
        None => {
            return false;
        },
    };
    p_in.equals(&p_out)
}

/// Whether a pair may be pruned at a height.
pub open spec fn mature(c: CutThroughCandidate, height: u64) -> bool {
    height >= c.spent_at + MW_CUTTHROUGH_DEPTH
}

/// The commitments of the pairs that may be pruned, in order.
pub open spec fn prunable(p: Seq<CutThroughCandidate>, height: u64) -> Seq<[u8; 32]>
    decreases p.len(),
{
    if p.len() == 0 {
        Seq::empty()
    } else if mature(p.last(), height) {
        prunable(p.drop_last(), height).push(p.last().spent_commitment).push(
            p.last().input_commitment,
        )
    } else {
        prunable(p.drop_last(), height)
    }
}

/// The pairs that wait on, in order.
pub open spec fn waiting(p: Seq<CutThroughCandidate>, height: u64) -> Seq<CutThroughCandidate>
    decreases p.len(),
{
    if p.len() == 0 {
        Seq::empty()
    } else if mature(p.last(), height) {
        waiting(p.drop_last(), height)
    } else {
        waiting(p.drop_last(), height).push(p.last())
    }
}

/// The kernels of the pairs that may be pruned, in order.
pub open spec fn matured_kernels(p: Seq<CutThroughCandidate>, height: u64) -> Seq<MwKernel>
    decreases p.len(),
{
    if p.len() == 0 {
        Seq::empty()
    } else if mature(p.last(), height) {
        matured_kernels(p.drop_last(), height).push(p.last().kernel)
    } else {
        matured_kernels(p.drop_last(), height)
    }
}

/// The first pairs of a list have no more kernels to keep than all of them.
proof fn lemma_matured_grows(p: Seq<CutThroughCandidate>, height: u64, n: int)
    requires
        0 <= n <= p.len(),
    ensures
        matured_kernels(p.take(n), height).len() <= matured_kernels(p, height).len(),
    decreases p.len(),
{
    if n == p.len() {
        assert(p.take(n) =~= p);
    } else {
        lemma_matured_grows(p.drop_last(), height, n);
        assert(p.drop_last().take(n) =~= p.take(n));
    }
}

/// Collects the pairs and prunes them when they are deep enough.
pub struct CutThroughEngine {
    /// The pairs that wait.
    pub pending: Vec<CutThroughCandidate>,
    /// The kernels of the pairs that were pruned.
    pub kept_kernels: Vec<MwKernel>,
    /// The bytes that pruning saved.
    pub bytes_saved: u64,
}

/// What the engine holds.
#[derive(Clone, Copy, Debug, PartialEq, Eq)]
pub struct CutThroughStats {
    /// The number of pairs that wait.
    pub pending_candidates: usize,
    /// The number of kernels that stayed.
    pub kernels_kept: usize,
    /// The bytes that pruning saved.
    pub bytes_saved: u64,
    /// The bytes that pruning saved and those of the kernels.
    pub total_bytes: u64,
}

impl Default for CutThroughStats {
    fn default() -> (r: CutThroughStats)
        ensures
            r.pending_candidates == 0 && r.kernels_kept == 0 && r.bytes_saved == 0
                && r.total_bytes == 0,
    {
        CutThroughStats { pending_candidates: 0, kernels_kept: 0, bytes_saved: 0, total_bytes: 0 }
    }
}

/// What going through the kernels of a set comes to.
pub enum KernelScan {
    /// A kernel is malformed or not signed.
    Invalid,
    /// The fees do not fit in 64 bits.
    Overflow,
    /// The sum of the excesses and the sum of the fees.
    Sum(nat, nat),
}

/// Goes through the kernels of a set in order.
pub open spec fn scan_kernels(k: Seq<MwKernel>) -> KernelScan
    decreases k.len(),
{
    if k.len() == 0 {
        KernelScan::Sum(0, 0)
    } else {
        match scan_kernels(k.drop_last()) {
            KernelScan::Sum(e, f) => if !signature_valid(k.last()) {
                KernelScan::Invalid
            } else if f + k.last().fee > u64::MAX {
                KernelScan::Overflow
            } else {
                KernelScan::Sum(
                    field::plus(e, group::ristretto_log(k.last().excess@)->0),
                    f + k.last().fee as nat,
                )
            },
            other => other,
        }
    }
}

/// What checking a set of kernels gives: every kernel must be signed, and the excesses must
/// add up to the fees on `H`.
pub open spec fn kernel_set_outcome(k: Seq<MwKernel>) -> Result<()> {
    match scan_kernels(k) {
        KernelScan::Invalid => Err(Error::MwCutthroughVerifyFailed),
        KernelScan::Overflow => Err(Error::AmountOverflow),
        KernelScan::Sum(e, f) => if e == field::times(curve::h_log(), f) {
            Ok(())
        } else {
            Err(Error::MwCutthroughVerifyFailed)
        },
    }
}

impl CutThroughEngine {
    /// An engine with nothing in it.
    pub fn new() -> (r: CutThroughEngine)
        ensures
            r.pending@ == Seq::<CutThroughCandidate>::empty(),
            r.kept_kernels@ == Seq::<MwKernel>::empty(),
            r.bytes_saved == 0,
    {
        let pending: Vec<CutThroughCandidate> = Vec::new();
        let kept_kernels: Vec<MwKernel> = Vec::new();
        CutThroughEngine { pending, kept_kernels, bytes_saved: 0 }
    }

    /// Adds a pair, if both commitments are the same group element.
    pub fn register_spend(
        &mut self,
        spent_commitment: [u8; 32],
        input_commitment: [u8; 32],
        created_at: u64,
        spent_at: u64,
        kernel: MwKernel,
    )
        ensures
            final(self).kept_kernels@ == old(self).kept_kernels@,
            final(self).bytes_saved == old(self).bytes_saved,
            final(self).pending@ == if same_point(spent_commitment@, input_commitment@) {
                old(self).pending@.push(
                    (CutThroughCandidate {
                        spent_commitment,
                        input_commitment,
                        created_at,
                        spent_at,
                        kernel,
                    }),
                )
            } else {
                old(self).pending@
            },
    {
        if verify_cut_through(&spent_commitment, &input_commitment) {
            self.pending.push(
                CutThroughCandidate {
                    spent_commitment,
                    input_commitment,
                    created_at,
                    spent_at,
                    kernel,
                },
            );
        }
    }

    /// Prunes the pairs that are deep enough: their commitments come out, their kernels stay,
    /// and the other pairs wait on.
    pub fn process(&mut self, current_height: u64) -> (r: Vec<[u8; 32]>)
        requires
            forall|i: int|
                0 <= i < old(self).pending@.len() ==> (#[trigger] old(self).pending@[i]).spent_at
                    + MW_CUTTHROUGH_DEPTH <= u64::MAX,
            old(self).bytes_saved + PAIR_SAVING * matured_kernels(
                old(self).pending@,
                current_height,
            ).len() <= u64::MAX,
        ensures
            r@ == prunable(old(self).pending@, current_height),
            final(self).pending@ == waiting(old(self).pending@, current_height),
            final(self).kept_kernels@ == old(self).kept_kernels@ + matured_kernels(
                old(self).pending@,
                current_height,
            ),
            final(self).bytes_saved == old(self).bytes_saved + PAIR_SAVING
                * matured_kernels(old(self).pending@, current_height).len(),
    {
        let ghost all = self.pending@;
        let mut stack: Vec<CutThroughCandidate> = Vec::new();
        core::mem::swap(&mut stack, &mut self.pending);
        let mut queue: Vec<CutThroughCandidate> = Vec::new();
        assert(stack@ =~= all.take(all.len() as int));
        while stack.len() > 0
            invariant
                stack@.len() + queue@.len() == all.len(),
                stack@ == all.take(stack@.len() as int),
                forall|j: int|
                    0 <= j < queue@.len() ==> #[trigger] queue@[j] == all[all.len() - 1 - j],
                self.pending@.len() == 0,
                self.kept_kernels@ == old(self).kept_kernels@,
                self.bytes_saved == old(self).bytes_saved,
            decreases stack@.len(),
        {
            if let Some(c) = stack.pop() {
                queue.push(c);
                assert(stack@ =~= all.take(stack@.len() as int));
            }
        }
        let mut out: Vec<[u8; 32]> = Vec::new();
        let ghost mut done: int = 0;
        assert(all.take(0) =~= Seq::<CutThroughCandidate>::empty());
        assert(self.kept_kernels@ =~= old(self).kept_kernels@ + matured_kernels(
            all.take(0),
            current_height,
        ));
        assert(self.pending@ =~= Seq::<CutThroughCandidate>::empty());
        while queue.len() > 0
            invariant
                0 <= done <= all.len(),
                all == old(self).pending@,
                queue@.len() == all.len() - done,
                forall|j: int|
                    0 <= j < queue@.len() ==> #[trigger] queue@[j] == all[all.len() - 1 - j],
                forall|i: int|
                    0 <= i < all.len() ==> (#[trigger] all[i]).spent_at + MW_CUTTHROUGH_DEPTH
                        <= u64::MAX,
                old(self).bytes_saved + PAIR_SAVING * matured_kernels(all, current_height).len()
                    <= u64::MAX,
                out@ == prunable(all.take(done), current_height),
                self.pending@ == waiting(all.take(done), current_height),
                self.kept_kernels@ == old(self).kept_kernels@ + matured_kernels(
                    all.take(done),
                    current_height,
                ),
                self.bytes_saved == old(self).bytes_saved + PAIR_SAVING
                    * matured_kernels(all.take(done), current_height).len(),
            decreases queue@.len(),
        {
            proof {
                assert(queue@[queue@.len() - 1] == all[done]);
                assert(all.take(done + 1).drop_last() =~= all.take(done));
                assert(all.take(done + 1).last() == all[done]);
            }
            if let Some(candidate) = queue.pop() {
                if current_height >= candidate.spent_at + MW_CUTTHROUGH_DEPTH {
                    out.push(candidate.spent_commitment);
                    out.push(candidate.input_commitment);
                    proof {
                        let n = matured_kernels(all.take(done), current_height).len() as int;
                        assert(PAIR_SAVING * (n + 1) == PAIR_SAVING * n + PAIR_SAVING)
                            by (nonlinear_arith);
                        let m = matured_kernels(all, current_height).len() as int;
                        lemma_matured_grows(all, current_height, done + 1);
                        assert(PAIR_SAVING * (n + 1) <= PAIR_SAVING * m) by (nonlinear_arith)
                            requires
                                n + 1 <= m,
                        ;
                    }
                    self.bytes_saved = self.bytes_saved + PAIR_SAVING;
                    self.kept_kernels.push(candidate.kernel);
                    assert(self.kept_kernels@ =~= old(self).kept_kernels@ + matured_kernels(
                        all.take(done + 1),
                        current_height,
                    ));
                } else {
                    self.pending.push(candidate);
                }
            }
            proof {
                done = done + 1;
            }
        }
        assert(all.take(done) =~= all);
        out
    }

    /// Checks a set of kernels.
    pub fn verify_kernel_set(kernels: &[MwKernel]) -> (r: Result<()>)
        ensures
            r == kernel_set_outcome(kernels@),
    {
        let mut excess_sum = RistrettoPoint::identity();
        let mut fee_sum: u64 = 0;
        let mut i: usize = 0;
        assert(kernels@.take(0) =~= Seq::<MwKernel>::empty());
        while i < kernels.len()
            invariant
                i <= kernels@.len(),
                scan_kernels(kernels@.take(i as int)) == KernelScan::Sum(
                    excess_sum@,
                    fee_sum as nat,
                ),
            decreases kernels@.len() - i,
        {
            let k = &kernels[i];
            proof {
                let next = kernels@.take(i + 1);
                assert(next.drop_last() =~= kernels@.take(i as int));
                assert(next.last() == *k);
            }
            let p = match k.excess_point() {
                Some(p) => p,
                None => {
                    proof {
                        lemma_scan_stops(kernels@, i + 1);
                    }
                    return Err(Error::MwCutthroughVerifyFailed);
                },
            };
            if !verify_kernel_signature(k) {
                proof {
                    lemma_scan_stops(kernels@, i + 1);
                }
                return Err(Error::MwCutthroughVerifyFailed);
            }
            excess_sum = excess_sum.add(&p);
            fee_sum = match fee_sum.checked_add(k.fee) {
                Some(f) => f,
                None => {
                    proof {
                        lemma_scan_stops(kernels@, i + 1);
                    }
                    return Err(Error::AmountOverflow);
                },
            };
            i = i + 1;
        }
        assert(kernels@.take(i as int) =~= kernels@);
        let expected = curve::generator_h().mul(&Scalar::from_u64(fee_sum));
        if !excess_sum.equals(&expected) {
            return Err(Error::MwCutthroughVerifyFailed);
        }
        Ok(())
    }

    /// What the engine holds.
    pub fn stats(&self) -> (r: CutThroughStats)
        requires
            self.bytes_saved + self.kept_kernels@.len() * MW_KERNEL_SIZE <= u64::MAX,
        ensures
            r.pending_candidates == self.pending@.len(),
            r.kernels_kept == self.kept_kernels@.len(),
            r.bytes_saved == self.bytes_saved,
            r.total_bytes == self.bytes_saved + self.kept_kernels@.len() * MW_KERNEL_SIZE,
    {
        let kernel_bytes: u64 = self.kept_kernels.len() as u64 * MW_KERNEL_SIZE as u64;
        CutThroughStats {
            pending_candidates: self.pending.len(),
            kernels_kept: self.kept_kernels.len(),
            bytes_saved: self.bytes_saved,
            total_bytes: self.bytes_saved + kernel_bytes,
        }
    }
}

impl Default for CutThroughEngine {
    fn default() -> (r: CutThroughEngine)
        ensures
            r.pending@ == Seq::<CutThroughCandidate>::empty(),
            r.kept_kernels@ == Seq::<MwKernel>::empty(),
            r.bytes_saved == 0,
    {
        CutThroughEngine::new()
    }
}

proof fn lemma_scan_stops(k: Seq<MwKernel>, n: int)
    requires
        0 <= n <= k.len(),
        !(scan_kernels(k.take(n)) is Sum),
    ensures
        scan_kernels(k) == scan_kernels(k.take(n)),
    decreases k.len() - n,
{
    if n < k.len() {
        assert(k.take(n + 1).drop_last() =~= k.take(n));
        lemma_scan_stops(k, n + 1);
    } else {
        assert(k.take(n) =~= k);
    }
}

/// The blinding of the outputs less that of the inputs.
pub open spec fn blinding_excess(outputs: Seq<nat>, inputs: Seq<nat>) -> nat {
    field::minus(
        field::red(spark_balance::total(outputs) as int),
        field::red(spark_balance::total(inputs) as int),
    )
}

/// The pure blinding excess of a transaction, encoded on the basepoint.
pub fn compute_kernel_excess(output_blindings: &[Scalar], input_blindings: &[Scalar]) -> (r: [u8; 32])
    ensures
        group::encodes(
            r@,
            blinding_excess(group::values(output_blindings@), group::values(input_blindings@)),
        ),
{
    let excess = sum_scalars(output_blindings).sub(&sum_scalars(input_blindings));
    RistrettoPoint::mul_base(&excess).compress()
}

/// What the challenge of a kernel signature hashes.
pub open spec fn kernel_input(r: nat, key: nat, fee: u64, height: u64) -> Seq<u8> {
    bytes::tag("coincync/mw-kernel-sig/v1") + group::ristretto_encoding(r)
        + group::ristretto_encoding(key) + vstd::bytes::spec_u64_to_le_bytes(fee)
        + vstd::bytes::spec_u64_to_le_bytes(height)
}

/// The challenge of a kernel signature.
pub open spec fn kernel_challenge(r: nat, key: nat, fee: u64, height: u64) -> nat {
    field::red(field::le_nat(hashing::blake3_wide(kernel_input(r, key, fee, height))) as int)
}

fn kernel_sig_challenge(r: &RistrettoPoint, key: &RistrettoPoint, fee: u64, height: u64) -> (c:
    Scalar)
    ensures
        c@ == kernel_challenge(r@, key@, fee, height),
{
    let mut input: Vec<u8> = Vec::new();
    append_tag(&mut input, "coincync/mw-kernel-sig/v1");
    append(&mut input, &r.compress());
    append(&mut input, &key.compress());
    append_u64(&mut input, fee);
    append_u64(&mut input, height);
    assert(input@ =~= kernel_input(r@, key@, fee, height));
    Scalar::from_bytes_mod_order_wide(&hashing::blake3_wide_digest(input.as_slice()))
}

/// What the nonce of a kernel signature is the hash of: the secret and what is signed.
pub open spec fn nonce_input(x: nat, fee: u64, height: u64) -> Seq<u8> {
    bytes::tag("coincync/mw-kernel-nonce/v1") + field::scalar_bytes(x)
        + vstd::bytes::spec_u64_to_le_bytes(fee) + vstd::bytes::spec_u64_to_le_bytes(height)
}

/// The nonce of a kernel signature, a function of the secret and of what is signed.
pub open spec fn kernel_nonce(x: nat, fee: u64, height: u64) -> nat {
    field::red(field::le_nat(hashing::blake3_wide(nonce_input(x, fee, height))) as int)
}

fn kernel_sig_nonce(x: &Scalar, fee: u64, height: u64) -> (k: Scalar)
    ensures
        k@ == kernel_nonce(x@, fee, height),
{
    let mut input: Vec<u8> = Vec::new();
    append_tag(&mut input, "coincync/mw-kernel-nonce/v1");
    append(&mut input, &x.to_bytes());
    append_u64(&mut input, fee);
    append_u64(&mut input, height);
    assert(input@ =~= nonce_input(x@, fee, height));
    Scalar::from_bytes_mod_order_wide(&hashing::blake3_wide_digest(input.as_slice()))
}

/// The signature of a kernel: the nonce commitment, then the response.
pub open spec fn kernel_signature(x: nat, fee: u64, height: u64) -> Seq<u8> {
    let k = kernel_nonce(x, fee, height);
    let e = kernel_challenge(k, x, fee, height);
    group::ristretto_encoding(k) + field::scalar_bytes(field::plus(k, field::times(e, x)))
}

/// Signs a kernel with the blinding excess.
pub fn sign_kernel(blinding_excess: &Scalar, fee: u64, height: u64) -> (r: Vec<u8>)
    ensures
        r@ == kernel_signature(blinding_excess@, fee, height),
        group::encodes(r@.take(32), kernel_nonce(blinding_excess@, fee, height)),
        r@.len() == 64,
{
    let key = RistrettoPoint::mul_base(blinding_excess);
    let k = kernel_sig_nonce(blinding_excess, fee, height);
    let r_point = RistrettoPoint::mul_base(&k);
    let e = kernel_sig_challenge(&r_point, &key, fee, height);
    let s = k.add(&e.mul(blinding_excess));
    let mut sig: Vec<u8> = Vec::new();
    let r_bytes = r_point.compress();
    append(&mut sig, &r_bytes);
    append(&mut sig, &s.to_bytes());
    assert(sig@ =~= kernel_signature(blinding_excess@, fee, height));
    assert(sig@.take(32) =~= r_bytes@);
    sig
}

/// The key that the signature of a kernel is checked against: the excess less the fee on
/// `H`.
pub open spec fn signing_key(k: MwKernel) -> nat {
    field::minus(
        group::ristretto_log(k.excess@)->0,
        field::times(curve::h_log(), k.fee as nat),
    )
}

/// Whether a kernel is signed: `s*G == R + e*P` for `P` the excess less the fee on `H`.
pub open spec fn signature_valid(k: MwKernel) -> bool {
    let excess = group::ristretto_log(k.excess@);
    let r = group::ristretto_log(k.signature@.take(32));
    let s = field::le_nat(k.signature@.skip(32));
    let key = field::minus(excess->0, field::times(curve::h_log(), k.fee as nat));
    &&& excess is Some
    &&& k.signature@.len() == 64
    &&& r is Some
    &&& s < field::order()
    &&& s == field::plus(r->0, field::times(key, kernel_challenge(r->0, key, k.fee, k.height)))
}

/// Checks the signature of a kernel.
pub fn verify_kernel_signature(kernel: &MwKernel) -> (r: bool)
    ensures
        r == signature_valid(*kernel),
{
    let excess = match kernel.excess_point() {
        Some(p) => p,
        None => {
            return false;
        },
    };
    if kernel.signature.len() != 64 {
        return false;
    }
    let h = curve::generator_h();
    let key = excess.sub(&h.mul(&Scalar::from_u64(kernel.fee)));
    let r_bytes = array_32(kernel.signature.as_slice(), 0);
    let s_bytes = array_32(kernel.signature.as_slice(), 32);
    assert(r_bytes@ =~= kernel.signature@.take(32));
    assert(s_bytes@ =~= kernel.signature@.skip(32));
    let r_point = match RistrettoPoint::decompress(&r_bytes) {
        Some(p) => p,
        None => {
            return false;
        },
    };
    let s = match Scalar::from_canonical_bytes(&s_bytes) {
        Some(s) => s,
        None => {
            return false;
        },
    };
    let e = kernel_sig_challenge(&r_point, &key, kernel.fee, kernel.height);
    RistrettoPoint::mul_base(&s).equals(&r_point.add(&key.mul(&e)))
}

/// Whether `k` is the signed kernel of a blinding excess.
pub open spec fn is_signed_kernel(k: MwKernel, x: nat, fee: u64, height: u64) -> bool {
    &&& k.fee == fee
    &&& k.height == height
    &&& group::encodes(k.excess@, field::plus(x, field::times(curve::h_log(), fee as nat)))
    &&& k.signature@ == kernel_signature(x, fee, height)
    &&& k.signature@.len() == 64
    &&& group::encodes(k.signature@.take(32), kernel_nonce(x, fee, height))
}

/// Builds the signed kernel of a transaction.
pub fn build_signed_kernel(
    output_blindings: &[Scalar],
    input_blindings: &[Scalar],
    fee: u64,
    height: u64,
) -> (r: MwKernel)
    ensures
        is_signed_kernel(
            r,
            blinding_excess(group::values(output_blindings@), group::values(input_blindings@)),
            fee,
            height,
        ),
{
    let x = sum_scalars(output_blindings).sub(&sum_scalars(input_blindings));
    let h = curve::generator_h();
    let excess_point = RistrettoPoint::mul_base(&x).add(&h.mul(&Scalar::from_u64(fee)));
    let signature = sign_kernel(&x, fee, height);
    MwKernel { excess: excess_point.compress(), signature, fee, height }
}

// --- Laws --------------------------------------------------------------------------

/// The signature of a signed kernel is valid.
pub proof fn law_signed_kernel_verifies(k: MwKernel, x: nat, fee: u64, height: u64)
    requires
        is_signed_kernel(k, x, fee, height),
        x < field::order(),
    ensures
        signature_valid(k),
{
    let f = field::times(curve::h_log(), fee as nat);
    let excess = field::plus(x, f);
    let key = field::minus(excess, f);
    assert(key == x) by {
        field::lemma_minus_left((x + f) as int, f);
        field::lemma_red_small(x);
    }
    let n = kernel_nonce(x, fee, height);
    let e = kernel_challenge(n, x, fee, height);
    let s = field::plus(n, field::times(e, x));
    field::lemma_plus_scalar_bytes(n, field::times(e, x));
    assert(k.signature@.skip(32) =~= field::scalar_bytes(s));
    assert(x * e == e * x) by (nonlinear_arith);
}

/// What the challenge of a kernel signature hashes determines the nonce commitment, the
/// key, the fee and the height.
pub proof fn law_kernel_input_injective(
    r1: nat,
    key1: nat,
    fee1: u64,
    height1: u64,
    r2: nat,
    key2: nat,
    fee2: u64,
    height2: u64,
)
    requires
        kernel_input(r1, key1, fee1, height1) == kernel_input(r2, key2, fee2, height2),
    ensures
        height1 == height2,
        fee1 == fee2,
        group::encodable(r1) && group::encodable(r2) && group::encodable(key1)
            && group::encodable(key2) ==> r1 == r2 && key1 == key2,
{
    let t = bytes::tag("coincync/mw-kernel-sig/v1");
    let (e1, e2) = (group::ristretto_encoding(r1), group::ristretto_encoding(r2));
    let (k1, k2) = (group::ristretto_encoding(key1), group::ristretto_encoding(key2));
    let (f1, f2) = (
        vstd::bytes::spec_u64_to_le_bytes(fee1),
        vstd::bytes::spec_u64_to_le_bytes(fee2),
    );
    let (h1, h2) = (
        vstd::bytes::spec_u64_to_le_bytes(height1),
        vstd::bytes::spec_u64_to_le_bytes(height2),
    );
    bytes::lemma_u64_bytes(height1, height2);
    bytes::lemma_u64_bytes(height2, height1);
    bytes::lemma_u64_bytes(fee1, fee2);
    bytes::lemma_u64_bytes(fee2, fee1);
    bytes::lemma_same_tails(t + e1 + k1 + f1, h1, t + e2 + k2 + f2, h2);
    bytes::lemma_same_tails(t + e1 + k1, f1, t + e2 + k2, f2);
    if group::encodable(r1) && group::encodable(r2) && group::encodable(key1) && group::encodable(
        key2,
    ) {
        bytes::lemma_same_tails(t + e1, k1, t + e2, k2);
        bytes::lemma_same_tails(t, e1, t, e2);
    }
}

/// A signature commits to the fee and the height. Where one signature is valid for two
/// kernels with the same key that differ in one of them, two different strings hash to one
/// challenge: without such a collision the second kernel is refused.
pub proof fn law_signature_binds_fee_and_height(a: MwKernel, b: MwKernel)
    requires
        signature_valid(a),
        signature_valid(b),
        a.signature@ == b.signature@,
        a.fee != b.fee || a.height != b.height,
        signing_key(a) == signing_key(b),
        field::unit(signing_key(a)),
    ensures
        ({
            let r = group::ristretto_log(a.signature@.take(32))->0;
            let left = kernel_input(r, signing_key(a), a.fee, a.height);
            let right = kernel_input(r, signing_key(b), b.fee, b.height);
            &&& left != right
            &&& field::red(field::le_nat(hashing::blake3_wide(left)) as int) == field::red(
                field::le_nat(hashing::blake3_wide(right)) as int,
            )
        }),
{
    let r = group::ristretto_log(a.signature@.take(32))->0;
    let key = signing_key(a);
    let c1 = kernel_challenge(r, key, a.fee, a.height);
    let c2 = kernel_challenge(r, key, b.fee, b.height);
    broadcast use field::lemma_red_range;

    field::lemma_cancel_term(r, field::times(key, c1), field::times(key, c2));
    field::lemma_cancel(key, c1, c2);
    if kernel_input(r, key, a.fee, a.height) == kernel_input(r, key, b.fee, b.height) {
        law_kernel_input_injective(r, key, a.fee, a.height, r, key, b.fee, b.height);
    }
}

/// A signed kernel whose height is changed is refused, unless the string with the new height
/// hashes to the same challenge as the string with the old one.
pub proof fn law_changed_height_refused(a: MwKernel, b: MwKernel)
    requires
        signature_valid(a),
        a.excess@ == b.excess@,
        a.signature@ == b.signature@,
        a.fee == b.fee,
        a.height != b.height,
        field::unit(signing_key(a)),
        ({
            let r = group::ristretto_log(a.signature@.take(32))->0;
            let left = kernel_input(r, signing_key(a), a.fee, a.height);
            let right = kernel_input(r, signing_key(a), a.fee, b.height);
            left != right ==> field::red(field::le_nat(hashing::blake3_wide(left)) as int)
                != field::red(field::le_nat(hashing::blake3_wide(right)) as int)
        }),
    ensures
        !signature_valid(b),
{
    if signature_valid(b) {
        law_signature_binds_fee_and_height(a, b);
    }
}

/// A signed kernel whose fee is changed is refused, unless the string with the new fee
/// hashes to the one challenge `u*(s - r)` that the signature answers under the key with
/// the new fee taken off, for `u` the inverse of that key.
pub proof fn law_changed_fee_refused(a: MwKernel, b: MwKernel, u: nat)
    requires
        signature_valid(a),
        a.excess@ == b.excess@,
        a.signature@ == b.signature@,
        a.fee != b.fee,
        field::times(u, signing_key(b)) == 1,
        ({
            let r = group::ristretto_log(a.signature@.take(32))->0;
            let s = field::le_nat(a.signature@.skip(32));
            let left = kernel_input(r, signing_key(a), a.fee, a.height);
            let right = kernel_input(r, signing_key(b), b.fee, b.height);
            left != right ==> field::red(field::le_nat(hashing::blake3_wide(right)) as int)
                != field::times(u, field::minus(s, r))
        }),
    ensures
        !signature_valid(b),
{
    let r = group::ristretto_log(a.signature@.take(32))->0;
    let s = field::le_nat(a.signature@.skip(32));
    let key = signing_key(b);
    if kernel_input(r, signing_key(a), a.fee, a.height) == kernel_input(r, key, b.fee, b.height) {
        law_kernel_input_injective(
            r,
            signing_key(a),
            a.fee,
            a.height,
            r,
            key,
            b.fee,
            b.height,
        );
    }
    if signature_valid(b) {
        let c = kernel_challenge(r, key, b.fee, b.height);
        broadcast use field::lemma_red_range;

        field::lemma_minus_left((r + field::times(key, c)) as int, r);
        field::lemma_red_small(field::times(key, c));
        field::lemma_inverse(u, key, c);
    }
}

/// Two valid signatures with one nonce commitment and two challenges give the secret of the
/// key away: only who knows it can sign.
pub proof fn law_two_signatures_give_the_secret(a: MwKernel, b: MwKernel, u: nat)
    requires
        signature_valid(a),
        signature_valid(b),
        a.signature@.take(32) == b.signature@.take(32),
        signing_key(a) == signing_key(b),
        ({
            let r = group::ristretto_log(a.signature@.take(32))->0;
            field::times(
                u,
                field::minus(
                    field::red(
                        field::le_nat(
                            hashing::blake3_wide(kernel_input(r, signing_key(a), a.fee, a.height)),
                        ) as int,
                    ),
                    field::red(
                        field::le_nat(
                            hashing::blake3_wide(kernel_input(r, signing_key(b), b.fee, b.height)),
                        ) as int,
                    ),
                ),
            ) == 1
        }),
    ensures
        signing_key(a) == field::times(
            u,
            field::minus(
                field::le_nat(a.signature@.skip(32)),
                field::le_nat(b.signature@.skip(32)),
            ),
        ),
{
    let r = group::ristretto_log(a.signature@.take(32))->0;
    let key = signing_key(a);
    let c1 = kernel_challenge(r, key, a.fee, a.height);
    let c2 = kernel_challenge(r, key, b.fee, b.height);
    broadcast use field::lemma_red_range;

    field::lemma_two_responses(r, key, c1, c2);
    field::lemma_solve(
        u,
        field::minus(c1, c2),
        key,
        field::minus(field::le_nat(a.signature@.skip(32)), field::le_nat(b.signature@.skip(32))),
    );
}

/// Whether each kernel of a list is the signed kernel of its blinding excess.
pub open spec fn all_signed(k: Seq<MwKernel>, x: Seq<nat>) -> bool {
    &&& k.len() == x.len()
    &&& forall|i: int| 0 <= i < x.len() ==> #[trigger] x[i] < field::order()
    &&& forall|i: int|
        0 <= i < k.len() ==> is_signed_kernel(#[trigger] k[i], x[i], k[i].fee, k[i].height)
}

/// What the fees of a list of kernels add up to.
pub open spec fn fee_total(k: Seq<MwKernel>) -> nat
    decreases k.len(),
{
    if k.len() == 0 {
        0
    } else {
        fee_total(k.drop_last()) + k.last().fee as nat
    }
}

proof fn lemma_scan_of_signed(k: Seq<MwKernel>, x: Seq<nat>)
    requires
        all_signed(k, x),
        fee_total(k) <= u64::MAX,
    ensures
        scan_kernels(k) == KernelScan::Sum(
            field::red((spark_balance::total(x) + curve::h_log() * fee_total(k)) as int),
            fee_total(k),
        ),
    decreases k.len(),
{
    let h = curve::h_log() as int;
    if k.len() == 0 {
        assert(h * 0 == 0) by (nonlinear_arith);
        field::lemma_order_positive();
        field::lemma_red_small(0);
    } else {
        let kk = k.drop_last();
        let xx = x.drop_last();
        assert(kk.len() == xx.len());
        assert forall|i: int| 0 <= i < kk.len() implies is_signed_kernel(
            #[trigger] kk[i],
            xx[i],
            kk[i].fee,
            kk[i].height,
        ) by {
            assert(kk[i] == k[i]);
        }
        lemma_scan_of_signed(kk, xx);
        let last = k[k.len() - 1];
        assert(is_signed_kernel(last, x.last(), last.fee, last.height));
        law_signed_kernel_verifies(last, x.last(), last.fee, last.height);
        let before = spark_balance::total(xx) + h * fee_total(kk);
        field::lemma_plus_right(x.last(), h * last.fee);
        field::lemma_add_red(before, x.last() + h * last.fee);
        assert(h * (fee_total(kk) + last.fee) == h * fee_total(kk) + h * last.fee) by (nonlinear_arith);
    }
}

/// A set of signed kernels whose blindings cancel is accepted.
pub proof fn law_balanced_set_accepted(k: Seq<MwKernel>, x: Seq<nat>)
    requires
        all_signed(k, x),
        fee_total(k) <= u64::MAX,
        field::red(spark_balance::total(x) as int) == 0,
    ensures
        kernel_set_outcome(k) == Ok::<(), Error>(()),
{
    lemma_scan_of_signed(k, x);
    let h = curve::h_log() as int;
    field::lemma_add_red(spark_balance::total(x) as int, h * fee_total(k));
    field::lemma_red_range(h * fee_total(k));
    field::lemma_red_small(field::times(curve::h_log(), fee_total(k)));
}

/// In a set that is accepted every kernel is signed, and the excesses add up to the fees
/// on `H`.
pub proof fn law_accepted_set_balances(k: Seq<MwKernel>)
    requires
        kernel_set_outcome(k) == Ok::<(), Error>(()),
    ensures
        forall|i: int| 0 <= i < k.len() ==> signature_valid(#[trigger] k[i]),
        scan_kernels(k) == KernelScan::Sum(field::times(curve::h_log(), fee_total(k)), fee_total(k)),
{
    lemma_scan_sums(k);
}

proof fn lemma_scan_sums(k: Seq<MwKernel>)
    requires
        scan_kernels(k) is Sum,
    ensures
        forall|i: int| 0 <= i < k.len() ==> signature_valid(#[trigger] k[i]),
        scan_kernels(k)->Sum_1 == fee_total(k),
    decreases k.len(),
{
    if k.len() > 0 {
        lemma_scan_sums(k.drop_last());
        assert forall|i: int| 0 <= i < k.len() implies signature_valid(#[trigger] k[i]) by {
            if i < k.len() - 1 {
                assert(k.drop_last()[i] == k[i]);
            }
        }
    }
}

/// A value that an excess holds beyond the fee stays on `H` in the key that the signature
/// is checked against.
pub proof fn law_kernel_key_excludes_value(x: nat, v: nat, fee: u64)
    requires
        x < field::order(),
    ensures
        ({
            let h = curve::h_log();
            let excess = field::plus(x, field::times(h, v + fee as nat));
            field::minus(excess, field::times(h, fee as nat)) == field::plus(x, field::times(h, v))
        }),
{
    let h = curve::h_log() as int;
    field::lemma_plus_right(x, h * (v + fee));
    field::lemma_sub_red(x + h * (v + fee), h * fee);
    field::lemma_plus_right(x, h * v);
    assert(x + h * (v + fee) - h * fee == x + h * v) by (nonlinear_arith);
}

/// Processing loses no pair: each is pruned or waits on, and a pair that is pruned is deep
/// enough.
pub proof fn law_process_partitions(p: Seq<CutThroughCandidate>, height: u64)
    ensures
        waiting(p, height).len() + matured_kernels(p, height).len() == p.len(),
        prunable(p, height).len() == 2 * matured_kernels(p, height).len(),
        forall|i: int|
            0 <= i < waiting(p, height).len() ==> !mature(#[trigger] waiting(p, height)[i], height),
    decreases p.len(),
{
    if p.len() > 0 {
        law_process_partitions(p.drop_last(), height);
    }
}

/// A nonce belongs to one secret, fee and height: where two signatures of different claims
/// share it, two different strings hash to one scalar. So no nonce answers two challenges.
pub proof fn law_nonce_binds_claim(
    x1: nat,
    fee1: u64,
    height1: u64,
    x2: nat,
    fee2: u64,
    height2: u64,
)
    requires
        x1 < field::order(),
        x2 < field::order(),
        x1 != x2 || fee1 != fee2 || height1 != height2,
        kernel_nonce(x1, fee1, height1) == kernel_nonce(x2, fee2, height2),
    ensures
        ({
            let left = nonce_input(x1, fee1, height1);
            let right = nonce_input(x2, fee2, height2);
            &&& left != right
            &&& field::red(field::le_nat(hashing::blake3_wide(left)) as int) == field::red(
                field::le_nat(hashing::blake3_wide(right)) as int,
            )
        }),
{
    let t = bytes::tag("coincync/mw-kernel-nonce/v1");
    let (s1, s2) = (field::scalar_bytes(x1), field::scalar_bytes(x2));
    let (f1, f2) = (
        vstd::bytes::spec_u64_to_le_bytes(fee1),
        vstd::bytes::spec_u64_to_le_bytes(fee2),
    );
    let (h1, h2) = (
        vstd::bytes::spec_u64_to_le_bytes(height1),
        vstd::bytes::spec_u64_to_le_bytes(height2),
    );
    field::lemma_scalar_bytes(x1);
    field::lemma_scalar_bytes(x2);
    bytes::lemma_u64_bytes(fee1, fee2);
    bytes::lemma_u64_bytes(fee2, fee1);
    bytes::lemma_u64_bytes(height1, height2);
    bytes::lemma_u64_bytes(height2, height1);
    if nonce_input(x1, fee1, height1) == nonce_input(x2, fee2, height2) {
        bytes::lemma_same_tails(t + s1 + f1, h1, t + s2 + f2, h2);
        bytes::lemma_same_tails(t + s1, f1, t + s2, f2);
        bytes::lemma_same_tails(t, s1, t, s2);
    }
}

/// The models of the excesses of a list of kernels.
pub open spec fn excesses(k: Seq<MwKernel>) -> Seq<nat> {
    Seq::new(k.len(), |i: int| group::ristretto_log(k[i].excess@)->0)
}

proof fn lemma_scan_is_sum(k: Seq<MwKernel>)
    ensures
        scan_kernels(k) is Sum <==> (fee_total(k) <= u64::MAX && forall|i: int|
            0 <= i < k.len() ==> signature_valid(#[trigger] k[i])),
        scan_kernels(k) is Sum ==> scan_kernels(k) == KernelScan::Sum(
            field::red(spark_balance::total(excesses(k)) as int),
            fee_total(k),
        ),
        scan_kernels(k) is Overflow ==> fee_total(k) > u64::MAX,
        scan_kernels(k) is Invalid ==> exists|i: int|
            0 <= i < k.len() && !signature_valid(#[trigger] k[i]),
    decreases k.len(),
{
    if k.len() == 0 {
        assert(excesses(k).len() == 0);
        field::lemma_order_positive();
        field::lemma_red_small(0);
    } else {
        let before = k.drop_last();
        let last = k[k.len() - 1];
        lemma_scan_is_sum(before);
        assert(excesses(k).drop_last() =~= excesses(before));
        let e = spark_balance::total(excesses(before)) as int;
        field::lemma_plus_left(e, group::ristretto_log(last.excess@)->0);
        assert forall|i: int| 0 <= i < before.len() implies before[i] == k[i] by {}
        if (forall|i: int| 0 <= i < before.len() ==> signature_valid(#[trigger] before[i]))
            && signature_valid(last) {
            assert forall|i: int| 0 <= i < k.len() implies signature_valid(#[trigger] k[i]) by {
                if i < before.len() {
                    assert(before[i] == k[i]);
                }
            }
        }
        if forall|i: int| 0 <= i < k.len() ==> signature_valid(#[trigger] k[i]) {
            assert forall|i: int| 0 <= i < before.len() implies signature_valid(
                #[trigger] before[i],
            ) by {
                assert(before[i] == k[i]);
            }
        }
        if scan_kernels(before) is Invalid {
            let i = choose|i: int| 0 <= i < before.len() && !signature_valid(#[trigger] before[i]);
            assert(!signature_valid(k[i]));
        } else if scan_kernels(k) is Invalid {
            assert(!signature_valid(k[k.len() - 1]));
        }
    }
}

/// A set of kernels is accepted exactly where every kernel is signed, the fees fit in 64
/// bits, and the excesses add up to the fees on `H`.
pub proof fn law_kernel_set_accepted_iff(k: Seq<MwKernel>)
    ensures
        kernel_set_outcome(k) == Ok::<(), Error>(()) <==> {
            &&& forall|i: int| 0 <= i < k.len() ==> signature_valid(#[trigger] k[i])
            &&& fee_total(k) <= u64::MAX
            &&& field::red(spark_balance::total(excesses(k)) as int) == field::times(
                curve::h_log(),
                fee_total(k),
            )
        },
        kernel_set_outcome(k) == Err::<(), Error>(Error::AmountOverflow) ==> fee_total(k)
            > u64::MAX,
{
    lemma_scan_is_sum(k);
}

/// An accepted set is no longer accepted once the fee of a kernel is changed and the
/// excesses are kept.
pub proof fn law_accepted_set_fixes_the_fees(a: Seq<MwKernel>, b: Seq<MwKernel>)
    requires
        kernel_set_outcome(a) == Ok::<(), Error>(()),
        kernel_set_outcome(b) == Ok::<(), Error>(()),
        excesses(a) == excesses(b),
        field::unit(curve::h_log()),
    ensures
        fee_total(a) == fee_total(b),
{
    law_kernel_set_accepted_iff(a);
    law_kernel_set_accepted_iff(b);
    field::lemma_order_positive();
    field::lemma_cancel(curve::h_log(), fee_total(a), fee_total(b));
}

/// A pair is pruned exactly where the height is at least the depth above the spend: those
/// that wait are the others, in order, and the kernels that are kept are those of the pairs
/// that are pruned, in order.
pub proof fn law_process_splits_by_depth(p: Seq<CutThroughCandidate>, height: u64)
    ensures
        waiting(p, height) == p.filter(
            |c: CutThroughCandidate| height < c.spent_at + MW_CUTTHROUGH_DEPTH,
        ),
        matured_kernels(p, height) == p.filter(
            |c: CutThroughCandidate| height >= c.spent_at + MW_CUTTHROUGH_DEPTH,
        ).map_values(|c: CutThroughCandidate| c.kernel),
    decreases p.len(),
{
    reveal(Seq::filter);
    let young = |c: CutThroughCandidate| height < c.spent_at + MW_CUTTHROUGH_DEPTH;
    let deep = |c: CutThroughCandidate| height >= c.spent_at + MW_CUTTHROUGH_DEPTH;
    let kernel = |c: CutThroughCandidate| c.kernel;
    if p.len() == 0 {
        assert(p.filter(young) =~= Seq::empty());
        assert(p.filter(deep) =~= Seq::empty());
        assert(p.filter(deep).map_values(kernel) =~= Seq::empty());
    } else {
        law_process_splits_by_depth(p.drop_last(), height);
        let rest = p.drop_last().filter(deep);
        if deep(p.last()) {
            assert(rest.push(p.last()).map_values(kernel) =~= rest.map_values(kernel).push(
                p.last().kernel,
            ));
        }
    }
}

/// Both commitments of every pruned pair are given out, the output before the input, in the
/// order of the kernels that are kept.
pub proof fn law_prunable_pairs(p: Seq<CutThroughCandidate>, height: u64, i: int)
    requires
        0 <= i < p.filter(
            |c: CutThroughCandidate| height >= c.spent_at + MW_CUTTHROUGH_DEPTH,
        ).len(),
    ensures
        ({
            let deep = p.filter(
                |c: CutThroughCandidate| height >= c.spent_at + MW_CUTTHROUGH_DEPTH,
            );
            &&& prunable(p, height).len() == 2 * deep.len()
            &&& prunable(p, height)[2 * i] == deep[i].spent_commitment
            &&& prunable(p, height)[2 * i + 1] == deep[i].input_commitment
        }),
    decreases p.len(),
{
    reveal(Seq::filter);
    let deep = |c: CutThroughCandidate| height >= c.spent_at + MW_CUTTHROUGH_DEPTH;
    lemma_prunable_len(p, height);
    if p.len() > 0 {
        let before = p.drop_last();
        lemma_prunable_len(before, height);
        if i < before.filter(deep).len() {
            law_prunable_pairs(before, height, i);
        }
    }
}

proof fn lemma_prunable_len(p: Seq<CutThroughCandidate>, height: u64)
    ensures
        prunable(p, height).len() == 2 * p.filter(
            |c: CutThroughCandidate| height >= c.spent_at + MW_CUTTHROUGH_DEPTH,
        ).len(),
    decreases p.len(),
{
    reveal(Seq::filter);
    if p.len() > 0 {
        lemma_prunable_len(p.drop_last(), height);
    }
}

/// Processing at a height and then at a later one leaves the same pairs waiting as
/// processing at the later height alone.
pub proof fn law_process_in_steps(p: Seq<CutThroughCandidate>, first: u64, second: u64)
    requires
        first <= second,
    ensures
        waiting(waiting(p, first), second) == waiting(p, second),
        waiting(p, first).len() >= waiting(p, second).len(),
    decreases p.len(),
{
    if p.len() > 0 {
        let before = p.drop_last();
        law_process_in_steps(before, first, second);
        if !mature(p.last(), first) {
            assert(waiting(p, first).drop_last() =~= waiting(before, first));
        }
    }
}

/// A kernel has one signature with a given nonce commitment: what is signed cannot be passed
/// on under another string.
pub proof fn law_signature_is_not_malleable(a: MwKernel, b: MwKernel)
    requires
        signature_valid(a),
        signature_valid(b),
        a.excess@ == b.excess@,
        a.fee == b.fee,
        a.height == b.height,
        a.signature@.take(32) == b.signature@.take(32),
    ensures
        a.signature@ == b.signature@,
{
    field::lemma_same_number(a.signature@.skip(32), b.signature@.skip(32));
    assert(a.signature@ =~= a.signature@.take(32) + a.signature@.skip(32));
    assert(b.signature@ =~= b.signature@.take(32) + b.signature@.skip(32));
}

/// The blinding of two transactions together is the sum of their blindings.
pub proof fn law_blindings_add_up(
    outputs1: Seq<nat>,
    inputs1: Seq<nat>,
    outputs2: Seq<nat>,
    inputs2: Seq<nat>,
)
    ensures
        blinding_excess(outputs1 + outputs2, inputs1 + inputs2) == field::plus(
            blinding_excess(outputs1, inputs1),
            blinding_excess(outputs2, inputs2),
        ),
{
    let (a, b) = (spark_balance::total(outputs1) as int, spark_balance::total(inputs1) as int);
    let (c, d) = (spark_balance::total(outputs2) as int, spark_balance::total(inputs2) as int);
    lemma_total_of_both(outputs1, outputs2);
    lemma_total_of_both(inputs1, inputs2);
    field::lemma_sub_red(a, b);
    field::lemma_sub_red(c, d);
    field::lemma_sub_red(a + c, b + d);
    field::lemma_add_red(a - b, c - d);
}

proof fn lemma_total_of_both(a: Seq<nat>, b: Seq<nat>)
    ensures
        spark_balance::total(a + b) == spark_balance::total(a) + spark_balance::total(b),
    decreases b.len(),
{
    if b.len() == 0 {
        assert(a + b =~= a);
    } else {
        lemma_total_of_both(a, b.drop_last());
        assert((a + b).drop_last() =~= a + b.drop_last());
        assert((a + b).last() == b.last());
    }
}

} // verus!
