//! The interface of a ledger: an append-only chain of blocks with a Merkle
//! tree over the record commitments.

use vstd::prelude::*;
use std::path::Path;
use std::sync::Arc;
use crate::verifier_input::TransactionHash;

verus! {

/// The path type of the standard library; opaque here.
#[verifier::external_type_specification]
#[verifier::external_body]
pub struct ExPath(Path);

/// The error type of `anyhow`; opaque here.
#[verifier::external_type_specification]
#[verifier::external_body]
pub struct ExAnyhowError(anyhow::Error);

/// A ledger, for implementations to provide.
pub trait LedgerScheme: Sized {
    type MerkleParameters;
    type MerklePath;
    type Block;

    /// Instantiates a new ledger with a genesis block.
    fn new(
        path: Option<&Path>,
        parameters: Arc<Self::MerkleParameters>,
        genesis_block: Self::Block,
    ) -> Result<Self, anyhow::Error>;

    /// Returns the number of blocks including the genesis block
    fn len(&self) -> usize;

    /// Return the parameters used to construct the ledger Merkle tree.
    fn parameters(&self) -> &Arc<Self::MerkleParameters>;

    /// Return a digest of the latest ledger Merkle tree.
    fn digest(&self) -> Option<TransactionHash>;

    /// Check that st_{ts} is a valid digest for some (past) ledger state.
    fn validate_digest(&self, digest: &TransactionHash) -> bool;

    /// Returns true if the given commitment exists in the ledger.
    fn contains_cm(&self, cm: &TransactionHash) -> bool;

    /// Returns true if the given serial number exists in the ledger.
    fn contains_sn(&self, sn: &TransactionHash) -> bool;

    /// Returns true if the given memorandum exists in the ledger.
    fn contains_memo(&self, memo: &[u8; 32]) -> bool;

    /// Returns the Merkle path to the latest ledger digest
    /// for a given commitment, if it exists in the ledger.
    fn prove_cm(&self, cm: &TransactionHash) -> Result<Self::MerklePath, anyhow::Error>;

    /// Returns true if the given Merkle path is a valid witness for
    /// the given ledger digest and commitment.
    fn verify_cm(
        parameters: &Arc<Self::MerkleParameters>,
        digest: &TransactionHash,
        cm: &TransactionHash,
        witness: &Self::MerklePath,
    ) -> bool;
}

} // verus!
