//! Network-wide limits.
use vstd::prelude::*;

verus! {

/// The smallest anonymity set of a shielded spend.
pub const SPARK_ANON_SET_MIN: usize = 64;

/// The largest anonymity set of a shielded spend.
pub const SPARK_ANON_SET_MAX: usize = 16384;

/// The size of an encrypted memo on the wire.
pub const MAX_OUTPUT_MEMO_SIZE: usize = 256;

/// The height from which range proofs are Bulletproofs+.
pub const BULLETPROOFS_PLUS_HEIGHT: u64 = 0;

/// The version byte of a Bulletproofs+ range proof.
pub const RANGE_PROOF_VERSION_BP_PLUS: u8 = 3;

/// The share of the fees that is burned, in percent.
pub const FEE_BURN_NORMAL_PERCENT: u64 = 50;

/// The share of the fees that is burned while the network is congested, in percent.
pub const FEE_BURN_CONGESTED_PERCENT: u64 = 80;

/// The number of blocks after a spend before the pair is cut through.
pub const MW_CUTTHROUGH_DEPTH: u64 = 1000;

/// Whether shielded spends are part of this build.
pub const LELANTUS_SPARK_COMPILED: bool = true;

} // verus!
