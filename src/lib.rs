//! A binary hash tree (Merkle tree) over an ordered list of byte blocks,
//! with inclusion proofs that are generated from the tree and checked
//! against a root digest.
mod digest;
mod error;
mod inclusion;
mod laws;
mod level;
mod node;
mod tree;

pub use digest::{internal_hash, padding_hash, sha256_of, DIGEST_LEN};
pub use error::MerkleTreeError;
pub use inclusion::{
    combine, first_path, fold_proof, level_path, position_at, proof_view, sibling_step, step_bytes,
    step_input,
};
pub use laws::{
    law_build_deterministic, law_complete, law_proof_entries, law_proof_length, law_root_mismatch, law_root_sensitive,
    law_single_block, law_sound, law_tamper_detected,
};
pub use level::{
    leaf_hashes, level_at, levels_digest_len, merkle_root, next_level, pair_hash, pair_input,
    root_of_level, shaped, tree_height,
};
pub use node::Node;
pub use tree::{blocks_view, MerkleTree};
