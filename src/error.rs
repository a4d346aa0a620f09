use vstd::prelude::*;

verus! {

/// The two ways a tree operation can fail.
#[derive(Clone, Copy, Debug, PartialEq, Eq, Structural)]
pub enum MerkleTreeError {
    /// A tree was asked for over an empty list of blocks.
    EmptyInput,
    /// No leaf of the tree carries the digest of the queried data.
    ProofGenerationFailed,
}

impl MerkleTreeError {
    /// A human-readable description of the error.
    pub fn message(&self) -> (r: String)
        ensures
            *self == MerkleTreeError::EmptyInput ==> r@ == "Cannot build a tree from no blocks"@,
            *self == MerkleTreeError::ProofGenerationFailed ==> r@ == "Failed to generate proof"@,
    {
        match self {
            MerkleTreeError::EmptyInput => String::from_str("Cannot build a tree from no blocks"),
            MerkleTreeError::ProofGenerationFailed => String::from_str("Failed to generate proof"),
        }
    }
}

} // verus!
