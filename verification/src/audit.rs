//! Auditing of the supply: what was minted, what was burned, and whether a block adds up.
use vstd::prelude::*;
use crate::bytes;
use crate::bytes::{append, append_u64, array_32, bytes_equal};
use crate::constants::{FEE_BURN_CONGESTED_PERCENT, FEE_BURN_NORMAL_PERCENT};
use crate::error;
use crate::error::Result;
use crate::hashing;
use crate::hashing::hash_tagged;
use crate::primitives::Amount;
use crate::text;

verus! {

/// The supply at a height. The totals are 128 bits wide: the supply may exceed 64 bits.
#[derive(Clone, Copy, Debug, PartialEq, Eq)]
pub struct SupplyState {
    /// The height.
    pub height: u64,
    /// All that was minted, in atomic units.
    pub total_minted: u128,
    /// All that was burned, in atomic units.
    pub total_burned: u128,
    /// The hash that binds the totals.
    pub supply_commitment: [u8; 32],
}

/// A difference that does not go below zero.
pub open spec fn at_least_zero(a: int, b: int) -> int {
    if a >= b {
        a - b
    } else {
        0
    }
}

/// The hash that binds the totals of a supply.
pub open spec fn supply_hash(minted: u128, burned: u128) -> Seq<u8> {
    hashing::domain_hash(
        bytes::tag("supply_commitment"),
        vstd::bytes::spec_u128_to_le_bytes(minted) + vstd::bytes::spec_u128_to_le_bytes(burned),
    )
}

/// The wire format of a supply state: its fields, one after the other.
pub open spec fn state_wire(s: SupplyState) -> Seq<u8> {
    vstd::bytes::spec_u64_to_le_bytes(s.height) + vstd::bytes::spec_u128_to_le_bytes(s.total_minted)
        + vstd::bytes::spec_u128_to_le_bytes(s.total_burned) + s.supply_commitment@
}

impl Default for SupplyState {
    fn default() -> (r: SupplyState)
        ensures
            r.height == 0,
            r.total_minted == 0,
            r.total_burned == 0,
            r.supply_commitment@ == Seq::new(32, |i: int| 0u8),
    {
        let supply_commitment: [u8; 32] = [0u8; 32];
        assert(supply_commitment@ =~= Seq::new(32, |i: int| 0u8));
        SupplyState { height: 0, total_minted: 0, total_burned: 0, supply_commitment }
    }
}

impl SupplyState {
    /// What circulates: what was minted less what was burned.
    pub open spec fn supply(self) -> int {
        at_least_zero(self.total_minted as int, self.total_burned as int)
    }

    /// The supply before the first block.
    pub fn genesis() -> (r: SupplyState)
        ensures
            r.height == 0,
            r.total_minted == 0,
            r.total_burned == 0,
            r.supply_commitment@ == Seq::new(32, |i: int| 0u8),
    {
        SupplyState::default()
    }

    /// What circulates.
    pub fn circulating(&self) -> (r: u128)
        ensures
            r == self.supply(),
    {
        self.total_minted.saturating_sub(self.total_burned)
    }

    /// Adds the emission and the burn of a block. The totals must fit in 128 bits.
    pub fn apply_block(&mut self, emission: u64, burned: u64, height: u64)
        requires
            old(self).total_minted + emission <= u128::MAX,
            old(self).total_burned + burned <= u128::MAX,
        ensures
            final(self).height == height,
            final(self).total_minted == old(self).total_minted + emission,
            final(self).total_burned == old(self).total_burned + burned,
            final(self).supply_commitment@ == supply_hash(
                final(self).total_minted,
                final(self).total_burned,
            ),
    {
        self.height = height;
        self.total_minted = self.total_minted + emission as u128;
        self.total_burned = self.total_burned + burned as u128;
        self.update_commitment();
    }

    /// Whether the expected supply circulates.
    pub fn verify(&self, expected_supply: u128) -> (r: bool)
        ensures
            r == (self.supply() == expected_supply),
    {
        self.circulating() == expected_supply
    }

    fn update_commitment(&mut self)
        ensures
            final(self).height == old(self).height,
            final(self).total_minted == old(self).total_minted,
            final(self).total_burned == old(self).total_burned,
            final(self).supply_commitment@ == supply_hash(
                old(self).total_minted,
                old(self).total_burned,
            ),
    {
        let mut input: Vec<u8> = Vec::new();
        append(&mut input, vstd::bytes::u128_to_le_bytes(self.total_minted).as_slice());
        append(&mut input, vstd::bytes::u128_to_le_bytes(self.total_burned).as_slice());
        assert(input@ =~= vstd::bytes::spec_u128_to_le_bytes(self.total_minted)
            + vstd::bytes::spec_u128_to_le_bytes(self.total_burned));
        self.supply_commitment = hash_tagged("supply_commitment", input.as_slice());
    }

    /// Writes the wire format.
    pub fn encode(&self) -> (r: Vec<u8>)
        ensures
            r@ == state_wire(*self),
    {
        let mut v: Vec<u8> = Vec::new();
        append_u64(&mut v, self.height);
        append(&mut v, vstd::bytes::u128_to_le_bytes(self.total_minted).as_slice());
        append(&mut v, vstd::bytes::u128_to_le_bytes(self.total_burned).as_slice());
        append(&mut v, &self.supply_commitment);
        assert(v@ =~= state_wire(*self));
        v
    }

    /// Reads the wire format: exactly 72 bytes.
    pub fn from_bytes(bytes: &[u8]) -> (r: Result<SupplyState>)
        ensures
            match r {
                Ok(s) => state_wire(s) == bytes@,
                Err(e) => bytes@.len() != 72 && error::is_serialization(
                    e,
                    if bytes@.len() < 72 {
                        "Unexpected length of input"@
                    } else {
                        "Not all bytes read"@
                    },
                ),
            },
    {
        let n: usize = bytes.len();
        if n < 72 {
            return Err(error::serialization("Unexpected length of input"));
        }
        if n > 72 {
            return Err(error::serialization("Not all bytes read"));
        }
        let height: u64 = vstd::bytes::u64_from_le_bytes(
            vstd::slice::slice_subrange(bytes, 0, 8),
        );
        let total_minted: u128 = vstd::bytes::u128_from_le_bytes(
            vstd::slice::slice_subrange(bytes, 8, 24),
        );
        let total_burned: u128 = vstd::bytes::u128_from_le_bytes(
            vstd::slice::slice_subrange(bytes, 24, 40),
        );
        let s = SupplyState {
            height,
            total_minted,
            total_burned,
            supply_commitment: array_32(bytes, 40),
        };
        proof {
            vstd::bytes::lemma_auto_spec_u64_to_from_le_bytes();
            vstd::bytes::lemma_auto_spec_u128_to_from_le_bytes();
            assert(state_wire(s) =~= bytes@);
        }
        Ok(s)
    }
}

/// A supply state that was written is read back.
pub proof fn law_state_round_trip(s: SupplyState, t: SupplyState)
    requires
        state_wire(s) == state_wire(t),
    ensures
        s.height == t.height,
        s.total_minted == t.total_minted,
        s.total_burned == t.total_burned,
        s.supply_commitment@ == t.supply_commitment@,
{
    vstd::bytes::lemma_auto_spec_u64_to_from_le_bytes();
    vstd::bytes::lemma_auto_spec_u128_to_from_le_bytes();
    let w = state_wire(s);
    assert(w.subrange(0, 8) =~= vstd::bytes::spec_u64_to_le_bytes(s.height));
    assert(w.subrange(0, 8) =~= vstd::bytes::spec_u64_to_le_bytes(t.height));
    assert(w.subrange(8, 24) =~= vstd::bytes::spec_u128_to_le_bytes(s.total_minted));
    assert(w.subrange(8, 24) =~= vstd::bytes::spec_u128_to_le_bytes(t.total_minted));
    assert(w.subrange(24, 40) =~= vstd::bytes::spec_u128_to_le_bytes(s.total_burned));
    assert(w.subrange(24, 40) =~= vstd::bytes::spec_u128_to_le_bytes(t.total_burned));
    assert(w.subrange(40, 72) =~= s.supply_commitment@);
    assert(w.subrange(40, 72) =~= t.supply_commitment@);
}

/// What the audit of a block found.
#[derive(Clone, Debug, PartialEq, Eq)]
pub struct BlockAudit {
    /// The height of the block.
    pub height: u64,
    /// Whether the supply adds up.
    pub supply_valid: bool,
    /// Whether the fees are distributed as they should be.
    pub fees_valid: bool,
    /// Whether the emission is the expected one.
    pub emission_valid: bool,
    /// What is wrong.
    pub issues: Vec<String>,
}

impl BlockAudit {
    /// Whether nothing is wrong.
    pub open spec fn passes(self) -> bool {
        self.supply_valid && self.fees_valid && self.emission_valid && self.issues@.len() == 0
    }

    /// Whether nothing is wrong.
    pub fn is_valid(&self) -> (r: bool)
        ensures
            r == self.passes(),
    {
        self.supply_valid && self.fees_valid && self.emission_valid && self.issues.len() == 0
    }

    /// The outcome in words.
    pub fn summary(&self) -> (r: String)
        ensures
            r@ == "Block "@ + text::decimal(self.height as nat) + if self.passes() {
                " audit: PASSED"@
            } else {
                " audit: FAILED - "@ + text::joined(text::texts(self.issues@), ", "@)
            },
    {
        let mut s: String = "Block ".to_owned();
        text::push_decimal(&mut s, self.height);
        if self.is_valid() {
            text::push_text(&mut s, " audit: PASSED");
        } else {
            let ghost head = s@;
            text::push_text(&mut s, " audit: FAILED - ");
            text::push_joined(&mut s, &self.issues, ", ");
            assert(s@ =~= head + (" audit: FAILED - "@ + text::joined(
                text::texts(self.issues@),
                ", "@,
            )));
        }
        s
    }
}

/// The part of the fees that is burned.
pub open spec fn burned_fees(fees: nat, congested: bool) -> int {
    fees as int * (if congested {
        FEE_BURN_CONGESTED_PERCENT
    } else {
        FEE_BURN_NORMAL_PERCENT
    }) as int / 100
}

/// What should circulate after a block.
pub open spec fn expected_supply(
    before: SupplyState,
    emission: nat,
    fees: nat,
    congested: bool,
) -> int {
    at_least_zero(before.supply() + emission, burned_fees(fees, congested))
}

/// A text that compares two numbers.
pub open spec fn comparison(
    head: Seq<char>,
    first: nat,
    middle: Seq<char>,
    second: nat,
) -> Seq<char> {
    head + text::decimal(first) + middle + text::decimal(second)
}

/// What an audit finds wrong with a block, in order.
pub open spec fn block_issues(
    height: u64,
    emission: nat,
    expected_emission: nat,
    fees: nat,
    fee_distribution_valid: bool,
    congested: bool,
    before: SupplyState,
    after: SupplyState,
) -> Seq<Seq<char>> {
    let expected = expected_supply(before, emission, fees, congested);
    let a: Seq<Seq<char>> = if emission != expected_emission {
        seq![comparison("Emission mismatch: got "@, emission, ", expected "@, expected_emission)]
    } else {
        seq![]
    };
    let b: Seq<Seq<char>> = if !fee_distribution_valid {
        seq!["Fee distribution invalid"@]
    } else {
        seq![]
    };
    let c: Seq<Seq<char>> = if after.height != height {
        seq![
            comparison(
                "Supply height mismatch: expected "@,
                height as nat,
                ", got "@,
                after.height as nat,
            ),
        ]
    } else {
        seq![]
    };
    let d: Seq<Seq<char>> = if after.supply() != expected {
        seq![
            comparison(
                "Supply mismatch: expected "@,
                expected as nat,
                ", got "@,
                after.supply() as nat,
            ),
        ]
    } else {
        seq![]
    };
    a + b + c + d
}

fn comparison_text(head: &str, first: u128, middle: &str, second: u128) -> (r: String)
    ensures
        r@ == comparison(head@, first as nat, middle@, second as nat),
{
    let mut s: String = head.to_owned();
    text::push_decimal_wide(&mut s, first);
    text::push_text(&mut s, middle);
    text::push_decimal_wide(&mut s, second);
    s
}

/// Audits the supply, the fees and the emission of a block. The supply must be exact.
pub fn audit_block(
    height: u64,
    emission: Amount,
    expected_emission: Amount,
    total_fees: Amount,
    fee_distribution_valid: bool,
    congested: bool,
    supply_before: &SupplyState,
    supply_after: &SupplyState,
) -> (r: BlockAudit)
    requires
        supply_before.supply() + emission@ <= u128::MAX,
    ensures
        r.height == height,
        r.emission_valid == (emission@ == expected_emission@),
        r.fees_valid == fee_distribution_valid,
        r.supply_valid == (supply_after.supply() == expected_supply(
            *supply_before,
            emission@,
            total_fees@,
            congested,
        )),
        text::texts(r.issues@) == block_issues(
            height,
            emission@,
            expected_emission@,
            total_fees@,
            fee_distribution_valid,
            congested,
            *supply_before,
            *supply_after,
        ),
{
    let mut issues: Vec<String> = Vec::new();
    assert(text::texts(issues@) =~= Seq::<Seq<char>>::empty());
    let emission_valid = emission.as_atomic() == expected_emission.as_atomic();
    if !emission_valid {
        issues.push(
            comparison_text(
                "Emission mismatch: got ",
                emission.as_atomic() as u128,
                ", expected ",
                expected_emission.as_atomic() as u128,
            ),
        );
    }
    if !fee_distribution_valid {
        issues.push("Fee distribution invalid".to_owned());
    }
    let burn_pct: u64 = if congested {
        FEE_BURN_CONGESTED_PERCENT
    } else {
        FEE_BURN_NORMAL_PERCENT
    };
    assert(total_fees@ * burn_pct <= u64::MAX * 100) by (nonlinear_arith)
        requires
            total_fees@ <= u64::MAX,
            burn_pct <= 100,
    ;
    let approximate_burn: u128 = total_fees.as_atomic() as u128 * burn_pct as u128 / 100;
    let expected: u128 = (supply_before.circulating()
        + emission.as_atomic() as u128).saturating_sub(approximate_burn);
    if supply_after.height != height {
        issues.push(
            comparison_text(
                "Supply height mismatch: expected ",
                height as u128,
                ", got ",
                supply_after.height as u128,
            ),
        );
    }
    let supply_valid = supply_after.circulating() == expected;
    if !supply_valid {
        issues.push(
            comparison_text(
                "Supply mismatch: expected ",
                expected,
                ", got ",
                supply_after.circulating(),
            ),
        );
    }
    proof {
        assert(text::texts(issues@) =~= block_issues(
            height,
            emission@,
            expected_emission@,
            total_fees@,
            fee_distribution_valid,
            congested,
            *supply_before,
            *supply_after,
        ));
    }
    BlockAudit { height, supply_valid, fees_valid: fee_distribution_valid, emission_valid, issues }
}

/// An audit passes if and only if the emission is the expected one, the fees are in order,
/// the height is right and exactly the expected supply circulates.
pub proof fn law_audit_passes_iff_exact(
    height: u64,
    emission: nat,
    expected_emission: nat,
    fees: nat,
    fee_distribution_valid: bool,
    congested: bool,
    before: SupplyState,
    after: SupplyState,
    r: BlockAudit,
)
    requires
        r.emission_valid == (emission == expected_emission),
        r.fees_valid == fee_distribution_valid,
        r.supply_valid == (after.supply() == expected_supply(before, emission, fees, congested)),
        text::texts(r.issues@) == block_issues(
            height,
            emission,
            expected_emission,
            fees,
            fee_distribution_valid,
            congested,
            before,
            after,
        ),
    ensures
        r.passes() <==> emission == expected_emission && fee_distribution_valid && after.height
            == height && after.supply() == expected_supply(before, emission, fees, congested),
{
    assert(text::texts(r.issues@).len() == r.issues@.len());
}

/// A block that emits what is expected and burns its share of the fees passes the audit.
pub proof fn law_honest_block_balances(
    before: SupplyState,
    after: SupplyState,
    emission: nat,
    fees: nat,
    congested: bool,
)
    requires
        before.total_burned + burned_fees(fees, congested) <= before.total_minted + emission,
        before.total_burned <= before.total_minted,
        after.total_minted == before.total_minted + emission,
        after.total_burned == before.total_burned + burned_fees(fees, congested),
    ensures
        after.supply() == expected_supply(before, emission, fees, congested),
{
}

/// A reading of the supply with a checksum over it. The checksum is no authentication.
#[derive(Clone, Copy, Debug, PartialEq, Eq)]
pub struct SupplySnapshot {
    /// The height.
    pub height: u64,
    /// What circulates.
    pub circulating: u128,
    /// All that was minted.
    pub total_minted: u128,
    /// All that was burned.
    pub total_burned: u128,
    /// The checksum.
    pub proof_hash: crate::primitives::Hash,
}

/// The checksum of a reading.
pub open spec fn snapshot_hash(height: u64, minted: u128, burned: u128) -> Seq<u8> {
    hashing::domain_hash(
        bytes::tag("supply_proof"),
        vstd::bytes::spec_u64_to_le_bytes(height) + vstd::bytes::spec_u128_to_le_bytes(minted)
            + vstd::bytes::spec_u128_to_le_bytes(burned),
    )
}

fn compute_snapshot_hash(height: u64, minted: u128, burned: u128) -> (r: [u8; 32])
    ensures
        r@ == snapshot_hash(height, minted, burned),
{
    let mut input: Vec<u8> = Vec::new();
    append_u64(&mut input, height);
    append(&mut input, vstd::bytes::u128_to_le_bytes(minted).as_slice());
    append(&mut input, vstd::bytes::u128_to_le_bytes(burned).as_slice());
    assert(input@ =~= vstd::bytes::spec_u64_to_le_bytes(height)
        + vstd::bytes::spec_u128_to_le_bytes(minted) + vstd::bytes::spec_u128_to_le_bytes(burned));
    hash_tagged("supply_proof", input.as_slice())
}

impl SupplySnapshot {
    /// Whether the reading agrees with itself: no more was burned than minted, what circulates
    /// is the difference, and the checksum is right.
    pub open spec fn consistent(self) -> bool {
        &&& self.total_burned <= self.total_minted
        &&& self.circulating == self.total_minted - self.total_burned
        &&& self.proof_hash@ == snapshot_hash(self.height, self.total_minted, self.total_burned)
    }

    /// The reading of a supply. It agrees with itself unless more was burned than minted.
    pub fn from_state(state: &SupplyState) -> (r: SupplySnapshot)
        ensures
            r.height == state.height,
            r.circulating == state.supply(),
            r.total_minted == state.total_minted,
            r.total_burned == state.total_burned,
            r.proof_hash@ == snapshot_hash(state.height, state.total_minted, state.total_burned),
            r.consistent() == (state.total_burned <= state.total_minted),
    {
        SupplySnapshot {
            height: state.height,
            circulating: state.circulating(),
            total_minted: state.total_minted,
            total_burned: state.total_burned,
            proof_hash: crate::primitives::Hash::from_bytes(
                compute_snapshot_hash(state.height, state.total_minted, state.total_burned),
            ),
        }
    }

    /// Whether the reading agrees with itself: what circulates is what was minted less what
    /// was burned, which is no more, and the checksum is right.
    pub fn verify(&self) -> (r: bool)
        ensures
            r == self.consistent(),
    {
        if self.total_burned > self.total_minted || self.circulating != self.total_minted
            - self.total_burned {
            return false;
        }
        let expected = compute_snapshot_hash(self.height, self.total_minted, self.total_burned);
        bytes_equal(self.proof_hash.as_bytes(), &expected)
    }
}

/// The supply under the name of its commitment.
pub type SupplyCommitment = SupplyState;

/// The audit of a block under the name of the supply audit.
pub type SupplyAuditResult = BlockAudit;

/// The reading of a supply under its older name.
pub type SupplyProof = SupplySnapshot;

/// The reading of a supply under another older name.
pub type SupplyAuditProof = SupplySnapshot;

/// What one block does to the supply.
#[derive(Clone, Copy, Debug, PartialEq, Eq)]
pub struct BlockSupplyDelta {
    /// The height of the block.
    pub height: u64,
    /// What it emits.
    pub emission: u64,
    /// What it burns.
    pub burned: u64,
    /// The emission less the burn, as far as it fits in 64 bits.
    pub net_change: i64,
}

/// A number moved into the range of a signed 64-bit integer.
pub open spec fn clamped(n: int) -> int {
    if n < i64::MIN {
        i64::MIN as int
    } else if n > i64::MAX {
        i64::MAX as int
    } else {
        n
    }
}

impl BlockSupplyDelta {
    /// What a block with this emission and burn does to the supply.
    pub fn new(height: u64, emission: Amount, burned: Amount) -> (r: BlockSupplyDelta)
        ensures
            r.height == height,
            r.emission == emission@,
            r.burned == burned@,
            r.net_change == clamped(emission@ - burned@),
    {
        let net: i128 = (emission.as_atomic() as i128) - (burned.as_atomic() as i128);
        let fitted: i128 = if net < i64::MIN as i128 {
            i64::MIN as i128
        } else if net > i64::MAX as i128 {
            i64::MAX as i128
        } else {
            net
        };
        BlockSupplyDelta {
            height,
            emission: emission.as_atomic(),
            burned: burned.as_atomic(),
            net_change: fitted as i64,
        }
    }
}

/// The supply after a block is the supply before it plus its emission less its burn.
pub proof fn law_supply_accumulates(
    before: SupplyState,
    after: SupplyState,
    emission: u64,
    burned: u64,
)
    requires
        before.total_burned + burned <= before.total_minted + emission,
        before.total_burned <= before.total_minted,
        after.total_minted == before.total_minted + emission,
        after.total_burned == before.total_burned + burned,
    ensures
        after.supply() == before.supply() + emission - burned,
        after.supply() == after.total_minted - after.total_burned,
{
}

/// The hash of the totals belongs to them: where two pairs of totals share it, two different
/// strings have one BLAKE3 hash.
pub proof fn law_supply_hash_binds(m1: u128, b1: u128, m2: u128, b2: u128)
    requires
        m1 != m2 || b1 != b2,
        supply_hash(m1, b1) == supply_hash(m2, b2),
    ensures
        ({
            let t = bytes::tag("supply_commitment");
            let left = t + (vstd::bytes::spec_u128_to_le_bytes(m1)
                + vstd::bytes::spec_u128_to_le_bytes(b1));
            let right = t + (vstd::bytes::spec_u128_to_le_bytes(m2)
                + vstd::bytes::spec_u128_to_le_bytes(b2));
            left != right && hashing::blake3_hash(left) == hashing::blake3_hash(right)
        }),
{
    let (x1, x2) = (
        vstd::bytes::spec_u128_to_le_bytes(m1),
        vstd::bytes::spec_u128_to_le_bytes(m2),
    );
    let (y1, y2) = (
        vstd::bytes::spec_u128_to_le_bytes(b1),
        vstd::bytes::spec_u128_to_le_bytes(b2),
    );
    bytes::lemma_u128_bytes(m1, m2);
    bytes::lemma_u128_bytes(m2, m1);
    bytes::lemma_u128_bytes(b1, b2);
    bytes::lemma_u128_bytes(b2, b1);
    if x1 + y1 == x2 + y2 {
        bytes::lemma_same_heads(x1, y1, x2, y2);
    }
    hashing::law_domain_hash_binds(bytes::tag("supply_commitment"), x1 + y1, x2 + y2);
}

/// The checksum of a reading belongs to its height and its totals: where two readings that
/// agree with themselves share it and differ, two different strings have one BLAKE3 hash.
pub proof fn law_snapshot_binds(a: SupplySnapshot, b: SupplySnapshot)
    requires
        a.consistent(),
        b.consistent(),
        a.proof_hash@ == b.proof_hash@,
        a.height != b.height || a.total_minted != b.total_minted || a.total_burned
            != b.total_burned || a.circulating != b.circulating,
    ensures
        ({
            let t = bytes::tag("supply_proof");
            let left = t + (vstd::bytes::spec_u64_to_le_bytes(a.height)
                + vstd::bytes::spec_u128_to_le_bytes(a.total_minted)
                + vstd::bytes::spec_u128_to_le_bytes(a.total_burned));
            let right = t + (vstd::bytes::spec_u64_to_le_bytes(b.height)
                + vstd::bytes::spec_u128_to_le_bytes(b.total_minted)
                + vstd::bytes::spec_u128_to_le_bytes(b.total_burned));
            left != right && hashing::blake3_hash(left) == hashing::blake3_hash(right)
        }),
{
    let (h1, h2) = (
        vstd::bytes::spec_u64_to_le_bytes(a.height),
        vstd::bytes::spec_u64_to_le_bytes(b.height),
    );
    let (x1, x2) = (
        vstd::bytes::spec_u128_to_le_bytes(a.total_minted),
        vstd::bytes::spec_u128_to_le_bytes(b.total_minted),
    );
    let (y1, y2) = (
        vstd::bytes::spec_u128_to_le_bytes(a.total_burned),
        vstd::bytes::spec_u128_to_le_bytes(b.total_burned),
    );
    bytes::lemma_u64_bytes(a.height, b.height);
    bytes::lemma_u64_bytes(b.height, a.height);
    bytes::lemma_u128_bytes(a.total_minted, b.total_minted);
    bytes::lemma_u128_bytes(b.total_minted, a.total_minted);
    bytes::lemma_u128_bytes(a.total_burned, b.total_burned);
    bytes::lemma_u128_bytes(b.total_burned, a.total_burned);
    if h1 + x1 + y1 == h2 + x2 + y2 {
        bytes::lemma_same_heads(h1 + x1, y1, h2 + x2, y2);
        bytes::lemma_same_heads(h1, x1, h2, x2);
    }
    hashing::law_domain_hash_binds(bytes::tag("supply_proof"), h1 + x1 + y1, h2 + x2 + y2);
}

/// No more is burned than the fees, more of them under congestion than without, and more
/// fees never burn less.
pub proof fn law_burn_is_a_share_of_the_fees(fees: nat, more: nat, congested: bool)
    ensures
        0 <= burned_fees(fees, congested) <= fees,
        burned_fees(fees, false) <= burned_fees(fees, true),
        burned_fees(fees, congested) <= burned_fees(fees + more, congested),
{
    if congested {
        assert(burned_fees(fees, true) <= burned_fees(fees + more, true));
    } else {
        assert(burned_fees(fees, false) <= burned_fees(fees + more, false));
    }
}

/// A number moved into the range of a signed 64-bit integer is in that range, is the number
/// where that was in the range, and keeps the order.
pub proof fn law_clamped(a: int, b: int)
    ensures
        i64::MIN <= clamped(a) <= i64::MAX,
        i64::MIN <= a <= i64::MAX ==> clamped(a) == a,
        a <= b ==> clamped(a) <= clamped(b),
{
}

} // verus!
