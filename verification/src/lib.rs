//! Verified privacy primitives over the Ristretto group.
pub mod audit;
pub mod audit_key;
pub mod batch_verify;
pub mod bulletproofs;
pub mod bytes;
pub mod cache;
pub mod clsag;
pub mod clsag_multisig;
pub mod constants;
pub mod curve;
pub mod disclosure;
pub mod entropy;
pub mod error;
pub mod field;
pub mod gk_algebra;
pub mod groth_kohlweiss;
pub mod group;
pub mod halo2_circuit;
pub mod hashing;
pub mod kernel_offset;
pub mod lelantus_spark;
pub mod memo;
pub mod mint_binding;
pub mod mw_cutthrough;
pub mod one_of_many_hk;
pub mod parallel_proofs;
pub mod peer_scalars;
pub mod primitives;
pub mod privacy_connector;
pub mod ring;
pub mod ring_selection;
pub mod scanner;
pub mod secure;
pub mod shielded_spend;
pub mod spark_accumulator;
pub mod spark_balance;
pub mod spark_generators;
pub mod spark_note;
pub mod spark_range;
pub mod spark_turnstile;
pub mod spend_wire;
pub mod stealth;
pub mod storage;
pub mod subaddress;
pub mod text;
pub mod wire;
