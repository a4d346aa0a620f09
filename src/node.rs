use crate::digest::{hash_data, internal_hash, padding_hash, sha256_of, DIGEST_LEN};
use vstd::prelude::*;

verus! {

/// A vertex of the tree: a leaf with the digest of one block, or an internal
/// vertex with the digest of its two children's digests and the children.
#[derive(Debug)]
pub enum Node {
    Leaf { hash: Vec<u8> },
    Internal { hash: Vec<u8>, left: Box<Node>, right: Box<Node> },
}

impl Node {
    /// The digest stored at this vertex.
    pub open spec fn hash_view(&self) -> Seq<u8> {
        match self {
            Node::Leaf { hash } => hash@,
            Node::Internal { hash, .. } => hash@,
        }
    }

    /// Every stored digest is 32 bytes long, and every internal vertex stores
    /// the digest of its children's digests.
    pub open spec fn wf(&self) -> bool
        decreases self,
    {
        match self {
            Node::Leaf { hash } => hash@.len() == DIGEST_LEN,
            Node::Internal { hash, left, right } => {
                &&& hash@ == internal_hash(left.hash_view(), right.hash_view())
                &&& hash@.len() == DIGEST_LEN
                &&& left.wf()
                &&& right.wf()
            },
        }
    }

    /// A well-formed vertex stores a 32-byte digest.
    pub proof fn lemma_wf_digest_len(&self)
        requires
            self.wf(),
        ensures
            self.hash_view().len() == DIGEST_LEN,
    {
    }

    /// The digests of the leaves, left to right.
    pub open spec fn leaves(&self) -> Seq<Seq<u8>>
        decreases self,
    {
        match self {
            Node::Leaf { hash } => seq![hash@],
            Node::Internal { left, right, .. } => left.leaves() + right.leaves(),
        }
    }

    /// The padding vertex: a leaf whose digest is 32 zero bytes.
    pub fn padding() -> (r: Node)
        ensures
            r is Leaf,
            r.hash_view() == padding_hash(),
            r.wf(),
    {
        let mut hash: Vec<u8> = Vec::new();
        let mut i: usize = 0;
        while i < DIGEST_LEN
            invariant
                i <= DIGEST_LEN,
                hash@ == Seq::new(i as nat, |j: int| 0u8),
            decreases DIGEST_LEN - i,
        {
            hash.push(0u8);
            i = i + 1;
        }
        Node::Leaf { hash }
    }

    /// A leaf for one block: its digest is the digest of the block.
    pub fn new_leaf(data: &[u8]) -> (r: Node)
        ensures
            r is Leaf,
            r.hash_view() == sha256_of(data@),
            r.wf(),
    {
        let hash = hash_data(data);
        Node::Leaf { hash }
    }

    /// An internal vertex over two children: its digest is the digest of the
    /// left child's digest followed by the right child's.
    pub fn new_internal(left: Box<Node>, right: Box<Node>) -> (r: Node)
        ensures
            r is Internal,
            r->left == left,
            r->right == right,
            r.hash_view() == internal_hash(left.hash_view(), right.hash_view()),
            r.hash_view().len() == DIGEST_LEN,
            left.wf() && right.wf() ==> r.wf(),
    {
        let mut combined_hash: Vec<u8> = Vec::with_capacity(64);
        combined_hash.extend_from_slice(left.get_hash().as_slice());
        combined_hash.extend_from_slice(right.get_hash().as_slice());
        assert(combined_hash@ =~= left.hash_view() + right.hash_view());
        let hash = hash_data(combined_hash.as_slice());
        Node::Internal { hash, left, right }
    }

    /// The digest stored at this vertex.
    pub fn get_hash(&self) -> (r: &Vec<u8>)
        ensures
            r@ == self.hash_view(),
    {
        match self {
            Node::Leaf { hash } => hash,
            Node::Internal { hash, .. } => hash,
        }
    }
}

} // verus!
