//! The connector between the privacy schemes and the state of the chain.
//!
//! Every operation of a scheme passes the connector first, which refuses by default: it can be
//! switched off, it is closed on the main network until the constructions are audited, it
//! opens at an activation height only, and it admits so many operations per block.
use vstd::prelude::*;
use crate::bytes::bytes_equal;
use crate::constants::LELANTUS_SPARK_COMPILED;
use crate::error;
use crate::error::{Error, Result};
use crate::group;
use crate::group::RistrettoPoint;
use crate::lelantus_spark;
use crate::lelantus_spark::{verify_spark_spend, SparkSpendProof};
use crate::mw_cutthrough;
use crate::mw_cutthrough::{CutThroughEngine, MwKernel};
use crate::primitives::NetworkType;
use crate::storage;
use crate::storage::{
    KernelStore, NoteCommitmentEntry, RecoveryMeta, ShieldedStore, SparkStore,
};
use crate::text;

verus! {

/// Whether the constructions behind the connector have passed an external audit.
pub const CONNECTOR_AUDITED: bool = false;

/// The most operations per block, unless another number is set.
pub const DEFAULT_MAX_OPS_PER_BLOCK: u32 = 16;

/// The privacy schemes behind the connector.
#[derive(Clone, Copy, Debug, PartialEq, Eq, Structural)]
pub enum Scheme {
    /// Shielded spends with serial tags.
    LelantusSpark,
    /// Cut-through kernels.
    MwCutThrough,
    /// The pool of shielded notes.
    Shielded,
    /// Recovery of outputs of inactive owners.
    DeadMansSwitch,
}

impl Scheme {
    /// The name of the scheme.
    pub open spec fn label(self) -> Seq<char> {
        match self {
            Scheme::LelantusSpark => "lelantus-spark"@,
            Scheme::MwCutThrough => "mw-cut-through"@,
            Scheme::Shielded => "shielded-pool"@,
            Scheme::DeadMansSwitch => "dead-mans-switch"@,
        }
    }

    /// The name of the scheme.
    pub fn name(self) -> (r: &'static str)
        ensures
            r@ == self.label(),
    {
        match self {
            Scheme::LelantusSpark => "lelantus-spark",
            Scheme::MwCutThrough => "mw-cut-through",
            Scheme::Shielded => "shielded-pool",
            Scheme::DeadMansSwitch => "dead-mans-switch",
        }
    }

    /// Whether the scheme is part of this build.
    pub open spec fn available(self) -> bool {
        self == Scheme::LelantusSpark ==> LELANTUS_SPARK_COMPILED
    }

    /// Whether the scheme is part of this build.
    pub fn compiled(self) -> (r: bool)
        ensures
            r == self.available(),
    {
        match self {
            Scheme::LelantusSpark => LELANTUS_SPARK_COMPILED,
            _ => true,
        }
    }
}

/// The connector.
#[derive(Clone, Copy, Debug, PartialEq, Eq)]
pub struct ConnectorGate {
    /// The network.
    pub network: NetworkType,
    /// The current height.
    pub current_height: u64,
    /// The height from which the connector is open; without it, it never is.
    pub activation_height: Option<u64>,
    /// Whether the connector was switched off.
    pub killed: bool,
    /// The most operations per block.
    pub max_ops_per_block: u32,
    /// The operations of this block so far.
    pub ops_this_block: u32,
}

/// Why the connector refuses a scheme, if it does.
pub open spec fn gate_fault(g: ConnectorGate, scheme: Scheme) -> Option<Seq<char>> {
    if g.killed {
        Some("privacy connector: kill switch engaged — all operations refused"@)
    } else if !scheme.available() {
        Some(
            "privacy connector: scheme '"@ + scheme.label()
                + "' is not compiled into this build"@,
        )
    } else if g.network == NetworkType::Mainnet && !CONNECTOR_AUDITED {
        Some(
            "privacy connector: '"@ + scheme.label()
                + "' is INERT on mainnet — the hand-rolled ZK awaits external audit (CONNECTOR_AUDITED=false)"@,
        )
    } else {
        match g.activation_height {
            None => Some(
                "privacy connector: '"@ + scheme.label()
                    + "' has no activation height configured — inert"@,
            ),
            Some(h) => if g.current_height < h {
                Some(
                    "privacy connector: '"@ + scheme.label() + "' not active until height "@
                        + text::decimal(h as nat) + " (current "@ + text::decimal(
                        g.current_height as nat,
                    ) + ")"@,
                )
            } else {
                None
            },
        }
    }
}

/// Why the connector does not admit an operation, if it does not.
pub open spec fn admit_fault(g: ConnectorGate, scheme: Scheme) -> Option<Seq<char>> {
    match gate_fault(g, scheme) {
        Some(t) => Some(t),
        None => if g.ops_this_block >= g.max_ops_per_block {
            Some(
                "privacy connector: per-block op cap "@ + text::decimal(g.max_ops_per_block as nat)
                    + " reached for this block"@,
            )
        } else {
            None
        },
    }
}

/// Whether `after` is the connector after an operation: one operation more if it was admitted, and
/// the same if it was not.
pub open spec fn after_admit(before: ConnectorGate, after: ConnectorGate, scheme: Scheme) -> bool {
    after == if admit_fault(before, scheme) is None {
        ConnectorGate { ops_this_block: (before.ops_this_block + 1) as u32, ..before }
    } else {
        before
    }
}

fn scheme_text(head: &str, scheme: Scheme, tail: &str) -> (r: String)
    ensures
        r@ == head@ + scheme.label() + tail@,
{
    let mut s: String = head.to_owned();
    text::push_text(&mut s, scheme.name());
    text::push_text(&mut s, tail);
    s
}

impl ConnectorGate {
    /// A connector that was not switched off, with no operations so far.
    pub fn new(network: NetworkType, current_height: u64, activation_height: Option<u64>) -> (r:
        ConnectorGate)
        ensures
            r == (ConnectorGate {
                network,
                current_height,
                activation_height,
                killed: false,
                max_ops_per_block: DEFAULT_MAX_OPS_PER_BLOCK,
                ops_this_block: 0,
            }),
    {
        ConnectorGate {
            network,
            current_height,
            activation_height,
            killed: false,
            max_ops_per_block: DEFAULT_MAX_OPS_PER_BLOCK,
            ops_this_block: 0,
        }
    }

    /// Switches the connector off.
    pub fn kill(&mut self)
        ensures
            *final(self) == (ConnectorGate { killed: true, ..*old(self) }),
    {
        self.killed = true;
    }

    /// Whether the connector was switched off.
    pub fn is_killed(&self) -> (r: bool)
        ensures
            r == self.killed,
    {
        self.killed
    }

    /// Starts a block: no operations so far.
    pub fn reset_block(&mut self)
        ensures
            *final(self) == (ConnectorGate { ops_this_block: 0, ..*old(self) }),
    {
        self.ops_this_block = 0;
    }

    /// The connector with another number of operations per block.
    pub fn with_max_ops_per_block(self, cap: u32) -> (r: ConnectorGate)
        ensures
            r == (ConnectorGate { max_ops_per_block: cap, ..self }),
    {
        let mut r = self;
        r.max_ops_per_block = cap;
        r
    }

    /// Whether the connector is open for a scheme.
    pub fn check(&self, scheme: Scheme) -> (r: Result<()>)
        ensures
            match gate_fault(*self, scheme) {
                Some(t) => r matches Err(e) && error::is_state(e, t),
                None => r == Ok::<(), Error>(()),
            },
    {
        if self.killed {
            return Err(
                error::state("privacy connector: kill switch engaged — all operations refused"),
            );
        }
        if !scheme.compiled() {
            return Err(
                Error::InvalidState(
                    scheme_text(
                        "privacy connector: scheme '",
                        scheme,
                        "' is not compiled into this build",
                    ),
                ),
            );
        }
        if self.network == NetworkType::Mainnet && !CONNECTOR_AUDITED {
            return Err(
                Error::InvalidState(
                    scheme_text(
                        "privacy connector: '",
                        scheme,
                        "' is INERT on mainnet — the hand-rolled ZK awaits external audit (CONNECTOR_AUDITED=false)",
                    ),
                ),
            );
        }
        match self.activation_height {
            None => Err(
                Error::InvalidState(
                    scheme_text(
                        "privacy connector: '",
                        scheme,
                        "' has no activation height configured — inert",
                    ),
                ),
            ),
            Some(h) => {
                if self.current_height < h {
                    let mut s = scheme_text(
                        "privacy connector: '",
                        scheme,
                        "' not active until height ",
                    );
                    text::push_decimal(&mut s, h);
                    text::push_text(&mut s, " (current ");
                    text::push_decimal(&mut s, self.current_height);
                    text::push_text(&mut s, ")");
                    Err(Error::InvalidState(s))
                } else {
                    Ok(())
                }
            },
        }
    }

    /// Admits an operation of a scheme and counts it.
    pub fn admit_op(&mut self, scheme: Scheme) -> (r: Result<()>)
        ensures
            match admit_fault(*old(self), scheme) {
                Some(t) => r matches Err(e) && error::is_state(e, t),
                None => r == Ok::<(), Error>(()),
            },
            after_admit(*old(self), *final(self), scheme),
    {
        match self.check(scheme) {
            Ok(_) => {},
            Err(e) => {
                return Err(e);
            },
        }
        if self.ops_this_block >= self.max_ops_per_block {
            let mut s: String = "privacy connector: per-block op cap ".to_owned();
            text::push_decimal(&mut s, self.max_ops_per_block as u64);
            text::push_text(&mut s, " reached for this block");
            return Err(Error::InvalidState(s));
        }
        self.ops_this_block = self.ops_this_block + 1;
        Ok(())
    }
}

/// The refusal of a conversion that is not implemented.
pub open spec fn converter_fault() -> Seq<char> {
    "privacy connector: cross-scheme value conversion is a STUB — no zero-knowledge equal-value protocol is implemented, and it is disabled pending external audit (CONNECTOR_AUDITED=false)"@
}

/// Converts value between the chain and a scheme. There is no protocol for it yet: where the
/// connector is open the conversion is still refused, until the constructions are audited, and
/// then where the values differ.
pub fn convert_value(
    gate: &ConnectorGate,
    scheme: Scheme,
    ringct_value: u64,
    scheme_value: u64,
) -> (r: Result<()>)
    ensures
        match gate_fault(*gate, scheme) {
            Some(t) => r matches Err(e) && error::is_state(e, t),
            None => if !CONNECTOR_AUDITED {
                r matches Err(Error::NotImplemented(m)) && m@ == converter_fault()
            } else if ringct_value != scheme_value {
                r matches Err(e) && error::is_state(
                    e,
                    "privacy connector: value-conservation violated (ringct="@ + text::decimal(
                        ringct_value as nat,
                    ) + ", scheme="@ + text::decimal(scheme_value as nat) + ")"@,
                )
            } else {
                r == Ok::<(), Error>(())
            },
        },
{
    match gate.check(scheme) {
        Ok(_) => {},
        Err(e) => {
            return Err(e);
        },
    }
    if !CONNECTOR_AUDITED {
        return Err(
            Error::NotImplemented(
                "privacy connector: cross-scheme value conversion is a STUB — no zero-knowledge equal-value protocol is implemented, and it is disabled pending external audit (CONNECTOR_AUDITED=false)".to_owned(),
            ),
        );
    }
    if ringct_value != scheme_value {
        let mut s: String = "privacy connector: value-conservation violated (ringct=".to_owned();
        text::push_decimal(&mut s, ringct_value);
        text::push_text(&mut s, ", scheme=");
        text::push_decimal(&mut s, scheme_value);
        text::push_text(&mut s, ")");
        return Err(Error::InvalidState(s));
    }
    Ok(())
}

/// Whether a list of kernels follows another with those of a third, in order.
pub open spec fn appended(before: Seq<MwKernel>, new: Seq<MwKernel>, after: Seq<MwKernel>) -> bool {
    &&& after.len() == before.len() + new.len()
    &&& forall|i: int| 0 <= i < before.len() ==> #[trigger] after[i] == before[i]
    &&& forall|i: int|
        0 <= i < new.len() ==> mw_cutthrough::same_kernel(
            #[trigger] after[before.len() + i],
            new[i],
        )
}

/// What a request to spend by a tag leaves of the tags that were spent: the tag is recorded
/// where the request is granted, which it is where the connector admits it, the tag is new
/// and the spend holds.
pub open spec fn tag_spent(
    gate: ConnectorGate,
    scheme: Scheme,
    before: Seq<([u8; 32], u64)>,
    after: Seq<([u8; 32], u64)>,
    tag: [u8; 32],
    holds: bool,
    granted: bool,
) -> bool {
    &&& granted <==> (admit_fault(gate, scheme) is None && !storage::holds_tag(before, tag@)
        && holds)
    &&& after == if granted {
        before.push((tag, gate.current_height))
    } else {
        before
    }
}

/// Whether the recovery of an output is authorized: where the connector admits it, the
/// address is the one of the output, and the time of inactivity has passed.
pub open spec fn recovery_granted(
    gate: ConnectorGate,
    meta: RecoveryMeta,
    creation_height: u64,
    current_height: u64,
    claimed: Seq<u8>,
) -> bool {
    &&& admit_fault(gate, Scheme::DeadMansSwitch) is None
    &&& claimed == meta.recovery_address@
    &&& meta.eligible(creation_height, current_height)
}

/// Brings a set of kernels onto the chain: the connector, the check of the set, and then the
/// store.
pub fn connect_mw_kernels(
    gate: &mut ConnectorGate,
    store: &mut KernelStore,
    kernels: &[MwKernel],
) -> (r: Result<()>)
    ensures
        after_admit(*old(gate), *final(gate), Scheme::MwCutThrough),
        match admit_fault(*old(gate), Scheme::MwCutThrough) {
            Some(t) => r matches Err(e) && error::is_state(e, t),
            None => r == mw_cutthrough::kernel_set_outcome(kernels@),
        },
        r is Ok ==> appended(old(store).kernels@, kernels@, final(store).kernels@),
        r is Err ==> final(store).kernels@ == old(store).kernels@,
{
    match gate.admit_op(Scheme::MwCutThrough) {
        Ok(_) => {},
        Err(e) => {
            return Err(e);
        },
    }
    match CutThroughEngine::verify_kernel_set(kernels) {
        Ok(_) => {},
        Err(e) => {
            return Err(e);
        },
    }
    let ghost before = store.kernels@;
    let mut i: usize = 0;
    while i < kernels.len()
        invariant
            i <= kernels@.len(),
            store.kernels@.len() == before.len() + i,
            forall|j: int| 0 <= j < before.len() ==> #[trigger] store.kernels@[j] == before[j],
            forall|j: int|
                0 <= j < i ==> mw_cutthrough::same_kernel(
                    #[trigger] store.kernels@[before.len() + j],
                    kernels@[j],
                ),
        decreases kernels@.len() - i,
    {
        store.append(kernels[i].clone());
        i = i + 1;
    }
    Ok(())
}

/// Brings a shielded note into the pool, at the position that comes out.
pub fn connect_shielded_note(
    gate: &mut ConnectorGate,
    store: &mut ShieldedStore,
    entry: NoteCommitmentEntry,
) -> (r: Result<u64>)
    ensures
        after_admit(*old(gate), *final(gate), Scheme::Shielded),
        final(store).nullifiers@ == old(store).nullifiers@,
        match admit_fault(*old(gate), Scheme::Shielded) {
            Some(t) => (r matches Err(e) && error::is_state(e, t)) && final(store).notes@ == old(
                store,
            ).notes@,
            None => r matches Ok(p) && p == old(store).notes@.len() && final(store).notes@ == old(
                store,
            ).notes@.push((NoteCommitmentEntry { position: p, ..entry })),
        },
{
    match gate.admit_op(Scheme::Shielded) {
        Ok(_) => {},
        Err(e) => {
            return Err(e);
        },
    }
    Ok(store.append_commitment(entry))
}

/// Spends a shielded note by its nullifier. A nullifier that was spent is refused.
pub fn connect_shielded_spend(
    gate: &mut ConnectorGate,
    store: &mut ShieldedStore,
    nullifier: [u8; 32],
) -> (r: Result<()>)
    ensures
        after_admit(*old(gate), *final(gate), Scheme::Shielded),
        final(store).notes@ == old(store).notes@,
        match admit_fault(*old(gate), Scheme::Shielded) {
            Some(t) => (r matches Err(e) && error::is_state(e, t)) && final(store).nullifiers@ == old(
                store,
            ).nullifiers@,
            None => if storage::holds_tag(old(store).nullifiers@, nullifier@) {
                (r matches Err(e) && error::is_state(
                    e,
                    "privacy connector: shielded nullifier already spent (double-spend)"@,
                )) && final(store).nullifiers@ == old(store).nullifiers@
            } else {
                r == Ok::<(), Error>(()) && final(store).nullifiers@ == old(
                    store,
                ).nullifiers@.push((nullifier, old(gate).current_height))
            },
        },
        tag_spent(
            *old(gate),
            Scheme::Shielded,
            old(store).nullifiers@,
            final(store).nullifiers@,
            nullifier,
            true,
            r is Ok,
        ),
{
    match gate.admit_op(Scheme::Shielded) {
        Ok(_) => {},
        Err(e) => {
            return Err(e);
        },
    }
    if store.is_nullifier_spent(&nullifier) {
        return Err(
            error::state("privacy connector: shielded nullifier already spent (double-spend)"),
        );
    }
    store.mark_nullifier_spent(nullifier, gate.current_height);
    Ok(())
}

/// Spends a shielded coin by its serial tag. A tag that was spent, and a proof that does not
/// hold, are refused.
pub fn connect_spark_spend(
    gate: &mut ConnectorGate,
    store: &mut SparkStore,
    spend: &SparkSpendProof,
    pubkeys: &[RistrettoPoint],
) -> (r: Result<()>)
    ensures
        after_admit(*old(gate), *final(gate), Scheme::LelantusSpark),
        match admit_fault(*old(gate), Scheme::LelantusSpark) {
            Some(t) => (r matches Err(e) && error::is_state(e, t)) && final(store).serials@ == old(
                store,
            ).serials@,
            None => if storage::holds_tag(old(store).serials@, spend.serial_tag@) {
                r == Err::<(), Error>(Error::SparkVerifyFailed) && final(store).serials@ == old(
                    store,
                ).serials@
            } else {
                &&& r == if lelantus_spark::spend_valid(*spend, group::logs(pubkeys@)) {
                    Ok::<(), Error>(())
                } else {
                    Err(Error::SparkVerifyFailed)
                }
                &&& final(store).serials@ == if r is Ok {
                    old(store).serials@.push((spend.serial_tag, old(gate).current_height))
                } else {
                    old(store).serials@
                }
            },
        },
        tag_spent(
            *old(gate),
            Scheme::LelantusSpark,
            old(store).serials@,
            final(store).serials@,
            spend.serial_tag,
            lelantus_spark::spend_valid(*spend, group::logs(pubkeys@)),
            r is Ok,
        ),
{
    match gate.admit_op(Scheme::LelantusSpark) {
        Ok(_) => {},
        Err(e) => {
            return Err(e);
        },
    }
    let tag = spend.serial_tag;
    if store.is_serial_spent(&tag) {
        return Err(Error::SparkVerifyFailed);
    }
    match verify_spark_spend(spend, pubkeys) {
        Ok(_) => {},
        Err(e) => {
            return Err(e);
        },
    }
    store.mark_serial_spent(tag, gate.current_height);
    Ok(())
}

/// Authorizes the recovery of an output: the address must be the one of the output, and the
/// time of inactivity must have passed.
pub fn connect_recovery_sweep(
    gate: &mut ConnectorGate,
    meta: &RecoveryMeta,
    creation_height: u64,
    current_height: u64,
    claimed_recovery_address: [u8; 32],
) -> (r: Result<()>)
    ensures
        after_admit(*old(gate), *final(gate), Scheme::DeadMansSwitch),
        match admit_fault(*old(gate), Scheme::DeadMansSwitch) {
            Some(t) => r matches Err(e) && error::is_state(e, t),
            None => if claimed_recovery_address@ != meta.recovery_address@ {
                r matches Err(e) && error::is_state(
                    e,
                    "privacy connector: recovery sweep address does not match the output's dead-man's-switch recovery address"@,
                )
            } else if !meta.eligible(creation_height, current_height) {
                r matches Err(e) && error::is_state(
                    e,
                    "privacy connector: recovery not yet eligible — needs "@ + text::decimal(
                        meta.timeout_blocks as nat,
                    ) + " blocks of inactivity (created "@ + text::decimal(creation_height as nat)
                        + ", current "@ + text::decimal(current_height as nat) + ")"@,
                )
            } else {
                r == Ok::<(), Error>(())
            },
        },
        r is Ok <==> recovery_granted(
            *old(gate),
            *meta,
            creation_height,
            current_height,
            claimed_recovery_address@,
        ),
{
    match gate.admit_op(Scheme::DeadMansSwitch) {
        Ok(_) => {},
        Err(e) => {
            return Err(e);
        },
    }
    if !bytes_equal(&claimed_recovery_address, &meta.recovery_address) {
        return Err(
            error::state(
                "privacy connector: recovery sweep address does not match the output's dead-man's-switch recovery address",
            ),
        );
    }
    if !meta.is_recovery_eligible(creation_height, current_height) {
        let mut s: String = "privacy connector: recovery not yet eligible — needs ".to_owned();
        text::push_decimal(&mut s, meta.timeout_blocks);
        text::push_text(&mut s, " blocks of inactivity (created ");
        text::push_decimal(&mut s, creation_height);
        text::push_text(&mut s, ", current ");
        text::push_decimal(&mut s, current_height);
        text::push_text(&mut s, ")");
        return Err(Error::InvalidState(s));
    }
    Ok(())
}

/// The state of a privacy feature.
#[derive(Clone, Copy, Debug, PartialEq, Eq, Structural)]
pub enum FeatureStatus {
    /// It runs.
    Active,
    /// It is there, and the connector is closed.
    GatedInert,
    /// It is switched off.
    Disabled,
}

/// A row of the registry.
#[derive(Clone, Copy, Debug, PartialEq, Eq)]
pub struct PrivacyFeature {
    /// The name of the feature.
    pub name: &'static str,
    /// Its state.
    pub status: FeatureStatus,
    /// A note for people.
    pub note: &'static str,
}

/// The state of a scheme behind the connector.
pub open spec fn scheme_state(g: ConnectorGate, scheme: Scheme) -> FeatureStatus {
    if gate_fault(g, scheme) is None {
        FeatureStatus::Active
    } else {
        FeatureStatus::GatedInert
    }
}

fn scheme_status(gate: &ConnectorGate, scheme: Scheme) -> (r: FeatureStatus)
    ensures
        r == scheme_state(*gate, scheme),
{
    match gate.check(scheme) {
        Ok(_) => FeatureStatus::Active,
        Err(_) => FeatureStatus::GatedInert,
    }
}

/// Whether a row holds a name, a state and a note.
pub open spec fn row(f: PrivacyFeature, name: Seq<char>, status: FeatureStatus, note: Seq<char>) -> bool {
    f.name@ == name && f.status == status && f.note@ == note
}

/// The registry: the features that always run, the one that is switched off, and the
/// schemes behind the connector.
pub open spec fn registry_rows(r: Seq<PrivacyFeature>, g: ConnectorGate) -> bool {
    &&& r.len() == 10
    &&& row(
        r[0],
        "decoy-defense"@,
        FeatureStatus::Active,
        "ring decoy selection in the live send path"@,
    )
    &&& row(
        r[1],
        "encrypted-memos"@,
        FeatureStatus::Active,
        "ECDH-encrypted memo on the first output"@,
    )
    &&& row(
        r[2],
        "scoped-view-keys"@,
        FeatureStatus::Active,
        "per-epoch scoped disclosure keys"@,
    )
    &&& row(r[3], "auto-churn"@, FeatureStatus::Active, "opt-in self-send churn engine"@)
    &&& row(
        r[4],
        "traffic-shaping"@,
        FeatureStatus::Active,
        "jitter + size-norm + cover packets (default-on)"@,
    )
    &&& row(
        r[5],
        "deniable-wallets"@,
        FeatureStatus::Disabled,
        "disabled pending structural rewrite + audit (C37/C38/C39)"@,
    )
    &&& row(
        r[6],
        Scheme::LelantusSpark.label(),
        scheme_state(g, Scheme::LelantusSpark),
        "serial-tag spend proofs; hand-rolled ZK awaits audit"@,
    )
    &&& row(
        r[7],
        Scheme::MwCutThrough.label(),
        scheme_state(g, Scheme::MwCutThrough),
        "kernel excess-signature verified pruning"@,
    )
    &&& row(
        r[8],
        Scheme::Shielded.label(),
        scheme_state(g, Scheme::Shielded),
        "note-commitment + nullifier pool"@,
    )
    &&& row(
        r[9],
        Scheme::DeadMansSwitch.label(),
        scheme_state(g, Scheme::DeadMansSwitch),
        "recovery-address sweep authorization"@,
    )
}

/// Every privacy feature with its state.
pub fn privacy_feature_registry(gate: &ConnectorGate) -> (r: Vec<PrivacyFeature>)
    ensures
        registry_rows(r@, *gate),
{
    let mut r: Vec<PrivacyFeature> = Vec::new();
    r.push(
        PrivacyFeature {
            name: "decoy-defense",
            status: FeatureStatus::Active,
            note: "ring decoy selection in the live send path",
        },
    );
    r.push(
        PrivacyFeature {
            name: "encrypted-memos",
            status: FeatureStatus::Active,
            note: "ECDH-encrypted memo on the first output",
        },
    );
    r.push(
        PrivacyFeature {
            name: "scoped-view-keys",
            status: FeatureStatus::Active,
            note: "per-epoch scoped disclosure keys",
        },
    );
    r.push(
        PrivacyFeature {
            name: "auto-churn",
            status: FeatureStatus::Active,
            note: "opt-in self-send churn engine",
        },
    );
    r.push(
        PrivacyFeature {
            name: "traffic-shaping",
            status: FeatureStatus::Active,
            note: "jitter + size-norm + cover packets (default-on)",
        },
    );
    r.push(
        PrivacyFeature {
            name: "deniable-wallets",
            status: FeatureStatus::Disabled,
            note: "disabled pending structural rewrite + audit (C37/C38/C39)",
        },
    );
    r.push(
        PrivacyFeature {
            name: "lelantus-spark",
            status: scheme_status(gate, Scheme::LelantusSpark),
            note: "serial-tag spend proofs; hand-rolled ZK awaits audit",
        },
    );
    r.push(
        PrivacyFeature {
            name: "mw-cut-through",
            status: scheme_status(gate, Scheme::MwCutThrough),
            note: "kernel excess-signature verified pruning",
        },
    );
    r.push(
        PrivacyFeature {
            name: "shielded-pool",
            status: scheme_status(gate, Scheme::Shielded),
            note: "note-commitment + nullifier pool",
        },
    );
    r.push(
        PrivacyFeature {
            name: "dead-mans-switch",
            status: scheme_status(gate, Scheme::DeadMansSwitch),
            note: "recovery-address sweep authorization",
        },
    );
    r
}

// --- Laws --------------------------------------------------------------------------

/// The connector is closed unless everything holds: it was not switched off, the scheme is part
/// of the build, the network is not the main network before an audit, and there is an
/// activation height that was reached.
pub proof fn law_gate_fails_closed(g: ConnectorGate, scheme: Scheme)
    ensures
        gate_fault(g, scheme) is None <==> {
            &&& !g.killed
            &&& scheme.available()
            &&& g.network != NetworkType::Mainnet || CONNECTOR_AUDITED
            &&& g.activation_height matches Some(h) && h <= g.current_height
        },
{
}

/// A connector that was switched off admits nothing.
pub proof fn law_kill_switch(g: ConnectorGate, scheme: Scheme)
    requires
        g.killed,
    ensures
        admit_fault(g, scheme) is Some,
{
}

/// A connector admits no more operations per block than its cap.
pub proof fn law_rate_limit(before: ConnectorGate, after: ConnectorGate, scheme: Scheme)
    requires
        before.ops_this_block <= before.max_ops_per_block,
        after_admit(before, after, scheme),
    ensures
        after.ops_this_block <= after.max_ops_per_block,
        after.max_ops_per_block == before.max_ops_per_block,
{
}

/// A nullifier or tag that was recorded is found from then on.
pub proof fn law_spent_stays_spent(
    tags: Seq<([u8; 32], u64)>,
    tag: [u8; 32],
    height: u64,
    other: Seq<u8>,
)
    ensures
        storage::holds_tag(tags.push((tag, height)), tag@),
        storage::holds_tag(tags, other) ==> storage::holds_tag(tags.push((tag, height)), other),
{
    let more = tags.push((tag, height));
    assert(more[tags.len() as int].0@ == tag@);
    if storage::holds_tag(tags, other) {
        let i = choose|i: int| 0 <= i < tags.len() && (#[trigger] tags[i]).0@ == other;
        assert(more[i].0@ == other);
    }
}

/// Nothing is spent twice: once a request by a tag was granted, no later request by that tag
/// is, as long as the tags that were recorded are kept.
pub proof fn law_no_double_spend(
    first_gate: ConnectorGate,
    second_gate: ConnectorGate,
    scheme: Scheme,
    before: Seq<([u8; 32], u64)>,
    after: Seq<([u8; 32], u64)>,
    grown: Seq<([u8; 32], u64)>,
    last: Seq<([u8; 32], u64)>,
    tag: [u8; 32],
    first_holds: bool,
    second_holds: bool,
    second_granted: bool,
)
    requires
        tag_spent(first_gate, scheme, before, after, tag, first_holds, true),
        after.is_prefix_of(grown),
        tag_spent(second_gate, scheme, grown, last, tag, second_holds, second_granted),
    ensures
        !second_granted,
        last == grown,
{
    let i = before.len() as int;
    assert(after[i].0@ == tag@);
    assert(grown[i] == after[i]);
    assert(storage::holds_tag(grown, tag@));
}

/// A spend that is granted holds and was admitted: the connector was not switched off, it was
/// active, and its cap for the block was not reached.
pub proof fn law_granted_spend_holds(
    gate: ConnectorGate,
    scheme: Scheme,
    before: Seq<([u8; 32], u64)>,
    after: Seq<([u8; 32], u64)>,
    tag: [u8; 32],
    holds: bool,
)
    requires
        tag_spent(gate, scheme, before, after, tag, holds, true),
    ensures
        holds,
        !gate.killed,
        gate.network != NetworkType::Mainnet || CONNECTOR_AUDITED,
        gate.activation_height matches Some(h) && h <= gate.current_height,
        gate.ops_this_block < gate.max_ops_per_block,
        forall|i: int| 0 <= i < before.len() ==> (#[trigger] before[i]).0@ != tag@,
        storage::holds_tag(after, tag@),
{
    law_gate_fails_closed(gate, scheme);
    assert forall|i: int| 0 <= i < before.len() implies (#[trigger] before[i]).0@ != tag@ by {
        if before[i].0@ == tag@ {
            assert(storage::holds_tag(before, tag@));
        }
    }
    assert(after[before.len() as int].0@ == tag@);
}

/// A recovery is authorized only for the address of the output, and only from the height of
/// its making plus the timeout on.
pub proof fn law_recovery_is_for_the_heir(
    gate: ConnectorGate,
    meta: RecoveryMeta,
    made: u64,
    now: u64,
    claimed: Seq<u8>,
)
    requires
        recovery_granted(gate, meta, made, now, claimed),
    ensures
        claimed == meta.recovery_address@,
        meta.timeout_blocks == 0 || now >= made + meta.timeout_blocks,
        !gate.killed,
        gate.ops_this_block < gate.max_ops_per_block,
{
    law_gate_fails_closed(gate, Scheme::DeadMansSwitch);
    storage::law_recovery_waits_for_the_timeout(meta, made, now, now);
}

/// An operation that is admitted counts once against the cap, and one that is not counts
/// for nothing; either way nothing else changes.
pub proof fn law_admission_counts_once(before: ConnectorGate, after: ConnectorGate, scheme: Scheme)
    requires
        after_admit(before, after, scheme),
    ensures
        after.ops_this_block == before.ops_this_block + (if gate_fault(before, scheme) is None
            && before.ops_this_block < before.max_ops_per_block {
            1int
        } else {
            0
        }),
        after.max_ops_per_block == before.max_ops_per_block,
        after.killed == before.killed,
        after.network == before.network,
        after.current_height == before.current_height,
        after.activation_height == before.activation_height,
{
}

} // verus!
