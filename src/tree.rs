use crate::digest::{hash_data, padding_hash, sha256_of, DIGEST_LEN};
use crate::inclusion::{
    combine, first_path, fold_proof, lemma_first_path_folds, lemma_first_path_found, proof_view,
};
use crate::error::MerkleTreeError;
use crate::level::{
    hashes_of, leaf_hashes, leaves_of, lemma_leaves_of_prefix, lemma_leaves_of_push, level_at,
    levels_digest_len, merkle_root, next_level, padded_after, pair_hash, root_of_level, shaped,
    tree_height,
};
use crate::node::Node;
use vstd::prelude::*;

verus! {

/// The contents of each block of a list, as byte sequences.
pub open spec fn blocks_view(blocks: Seq<&[u8]>) -> Seq<Seq<u8>> {
    blocks.map_values(|b: &[u8]| b@)
}

/// `node` is the vertex at height `h` and position `k` of the tree built on
/// the vertices `base`: at height 0 it is `base[k]` itself; above, it is as in
/// `shaped`.
spec fn rests_on(node: Node, base: Seq<Box<Node>>, h: nat, k: int) -> bool
    decreases h,
{
    &&& 0 <= k < level_at(hashes_of(base), h).len()
    &&& node.hash_view() == level_at(hashes_of(base), h)[k]
    &&& if h == 0 {
        node == *base[k]
    } else {
        match node {
            Node::Leaf { .. } => false,
            Node::Internal { left, right, .. } => {
                &&& rests_on(*left, base, (h - 1) as nat, 2 * k)
                &&& if 2 * k + 1 < level_at(hashes_of(base), (h - 1) as nat).len() {
                    rests_on(*right, base, (h - 1) as nat, 2 * k + 1)
                } else {
                    &&& *right is Leaf
                    &&& right.hash_view() == padding_hash()
                }
            },
        }
    }
}

/// Built on leaves, a vertex has the shape of the tree over their digests.
proof fn lemma_rests_on_shaped(node: Node, base: Seq<Box<Node>>, h: nat, k: int)
    requires
        rests_on(node, base, h, k),
        forall|j: int| 0 <= j < base.len() ==> *(#[trigger] base[j]) is Leaf,
    ensures
        shaped(node, hashes_of(base), h, k),
    decreases h,
{
    if h > 0 {
        match node {
            Node::Internal { left, right, .. } => {
                lemma_rests_on_shaped(*left, base, (h - 1) as nat, 2 * k);
                if 2 * k + 1 < level_at(hashes_of(base), (h - 1) as nat).len() {
                    lemma_rests_on_shaped(*right, base, (h - 1) as nat, 2 * k + 1);
                }
            },
            Node::Leaf { .. } => {},
        }
    }
}

/// A binary hash tree over an ordered, non-empty list of blocks; it is never
/// changed once built.
#[derive(Debug)]
pub struct MerkleTree {
    root: Node,
}

impl MerkleTree {
    /// The root vertex.
    pub closed spec fn root_node(&self) -> Node {
        self.root
    }

    /// The digest stored at the root.
    pub open spec fn root_hash_view(&self) -> Seq<u8> {
        self.root_node().hash_view()
    }

    /// Every vertex of the tree is well formed.
    pub open spec fn wf(&self) -> bool {
        self.root_node().wf()
    }

    /// The tree is the one built over `blocks`: its vertices are well formed;
    /// its root is the vertex at height `tree_height(n)` of the levels over
    /// the blocks' digests, every block leaf at that depth; every digest is
    /// 32 bytes; its root digest is `merkle_root(blocks)`; and its leaves are
    /// the blocks' digests in order, followed only by padding leaves.
    pub open spec fn models(&self, blocks: Seq<Seq<u8>>) -> bool {
        &&& self.wf()
        &&& shaped(self.root_node(), leaf_hashes(blocks), tree_height(blocks.len()), 0)
        &&& level_at(leaf_hashes(blocks), tree_height(blocks.len())).len() == 1
        &&& levels_digest_len(leaf_hashes(blocks), tree_height(blocks.len()))
        &&& self.root_hash_view().len() == DIGEST_LEN
        &&& self.root_hash_view() == merkle_root(blocks)
        &&& padded_after(self.root_node().leaves(), leaf_hashes(blocks))
    }

    /// Builds the tree over a non-empty list of blocks.
    pub fn from(data_blocks: Vec<&[u8]>) -> (r: MerkleTree)
        requires
            data_blocks@.len() > 0,
        ensures
            r.models(blocks_view(data_blocks@)),
    {
        let ghost blocks = blocks_view(data_blocks@);
        let mut nodes: Vec<Box<Node>> = Vec::new();
        let mut i: usize = 0;
        while i < data_blocks.len()
            invariant
                i <= data_blocks@.len(),
                blocks == blocks_view(data_blocks@),
                nodes@.len() == i,
                forall|j: int| 0 <= j < i ==> (#[trigger] nodes@[j]).wf() && *nodes@[j] is Leaf,
                hashes_of(nodes@) == leaf_hashes(blocks).subrange(0, i as int),
                leaves_of(nodes@) == leaf_hashes(blocks).subrange(0, i as int),
            decreases data_blocks@.len() - i,
        {
            let leaf = Box::new(Node::new_leaf(data_blocks[i]));
            proof {
                lemma_leaves_of_push(nodes@, leaf);
            }
            nodes.push(leaf);
            assert(hashes_of(nodes@) =~= leaf_hashes(blocks).subrange(0, i + 1));
            assert(leaves_of(nodes@) =~= leaf_hashes(blocks).subrange(0, i + 1));
            i = i + 1;
        }
        assert(leaf_hashes(blocks).subrange(0, i as int) =~= leaf_hashes(blocks));
        let ghost leaves = nodes@;
        let root = Self::build_tree(&mut nodes);
        proof {
            lemma_rests_on_shaped(*root, leaves, tree_height(leaves.len()), 0);
            root.lemma_wf_digest_len();
        }
        MerkleTree { root: *root }
    }

    /// Builds the tree over a list of blocks; fails on an empty list.
    pub fn build(data_blocks: Vec<&[u8]>) -> (r: Result<MerkleTree, MerkleTreeError>)
        ensures
            r is Err <==> data_blocks@.len() == 0,
            r matches Err(e) ==> e == MerkleTreeError::EmptyInput,
            r matches Ok(t) ==> t.models(blocks_view(data_blocks@)),
    {
        if data_blocks.len() == 0 {
            Err(MerkleTreeError::EmptyInput)
        } else {
            Ok(Self::from(data_blocks))
        }
    }

    /// Reduces a level of vertices, level by level, to a single root.
    fn build_tree(nodes: &mut Vec<Box<Node>>) -> (r: Box<Node>)
        requires
            old(nodes)@.len() > 0,
            forall|j: int| 0 <= j < old(nodes)@.len() ==> (#[trigger] old(nodes)@[j]).wf(),
        ensures
            r.wf(),
            r.hash_view() == root_of_level(hashes_of(old(nodes)@)),
            padded_after(r.leaves(), leaves_of(old(nodes)@)),
            rests_on(*r, old(nodes)@, tree_height(old(nodes)@.len()), 0),
            level_at(hashes_of(old(nodes)@), tree_height(old(nodes)@.len())).len() == 1,
            levels_digest_len(hashes_of(old(nodes)@), tree_height(old(nodes)@.len())),
            final(nodes)@.len() == 0,
    {
        let ghost first = nodes@;
        let ghost mut h: nat = 0;
        proof {
            assert forall|j: int| 0 <= j < first.len() implies rests_on(
                *(#[trigger] first[j]),
                first,
                0,
                j,
            ) by {}
            assert forall|g: nat, m: int|
                g <= 0 && 0 <= m < level_at(hashes_of(first), g).len() implies (#[trigger] level_at(
                hashes_of(first),
                g,
            )[m]).len() == DIGEST_LEN by {
                first[m].lemma_wf_digest_len();
            }
        }
        while nodes.len() > 1
            invariant
                nodes@.len() > 0,
                forall|j: int| 0 <= j < nodes@.len() ==> (#[trigger] nodes@[j]).wf(),
                root_of_level(hashes_of(nodes@)) == root_of_level(hashes_of(first)),
                padded_after(leaves_of(nodes@), leaves_of(first)),
                hashes_of(nodes@) == level_at(hashes_of(first), h),
                forall|j: int| 0 <= j < nodes@.len() ==> rests_on(*(#[trigger] nodes@[j]), first, h, j),
                h + tree_height(nodes@.len()) == tree_height(first.len()),
                levels_digest_len(hashes_of(first), h),
            decreases nodes@.len(),
        {
            let ghost level = nodes@;
            let ghost n = level.len() as int;
            let size: usize = nodes.len();
            let mut rev: Vec<Box<Node>> = Vec::with_capacity(size);
            while nodes.len() > 0
                invariant
                    n == level.len(),
                    nodes@.len() + rev@.len() == n,
                    forall|j: int| 0 <= j < nodes@.len() ==> nodes@[j] == level[j],
                    forall|j: int| 0 <= j < rev@.len() ==> rev@[j] == level[n - 1 - j],
                decreases nodes@.len(),
            {
                match nodes.pop() {
                    Some(x) => rev.push(x),
                    None => {},
                }
            }
            let mut new_level: Vec<Box<Node>> = Vec::with_capacity(size / 2 + 1);
            while rev.len() > 0
                invariant
                    n == level.len(),
                    n > 1,
                    rev@.len() <= n,
                    forall|j: int| 0 <= j < rev@.len() ==> rev@[j] == level[n - 1 - j],
                    forall|j: int| 0 <= j < level.len() ==> (#[trigger] level[j]).wf(),
                    forall|j: int| 0 <= j < level.len() ==> rests_on(*(#[trigger] level[j]), first, h, j),
                    hashes_of(level) == level_at(hashes_of(first), h),
                    forall|m: int|
                        0 <= m < new_level@.len() ==> rests_on(
                            *(#[trigger] new_level@[m]),
                            first,
                            h + 1,
                            m,
                        ),
                    n - rev@.len() == 2 * new_level@.len()
                        || (rev@.len() == 0 && n == 2 * new_level@.len() - 1),
                    forall|m: int|
                        0 <= m < new_level@.len() ==> (#[trigger] new_level@[m]).wf()
                            && new_level@[m].hash_view() == pair_hash(hashes_of(level), m),
                    n - rev@.len() == 2 * new_level@.len() ==> leaves_of(new_level@)
                        == leaves_of(level.subrange(0, n - rev@.len())),
                    n == 2 * new_level@.len() - 1 ==> leaves_of(new_level@) == leaves_of(level)
                        + seq![padding_hash()],
                decreases rev@.len(),
            {
                let ghost c = n - rev@.len();
                let left = match rev.pop() {
                    Some(x) => x,
                    None => Box::new(Node::padding()),
                };
                let right = if rev.len() > 0 {
                    match rev.pop() {
                        Some(x) => x,
                        None => Box::new(Node::padding()),
                    }
                } else {
                    Box::new(Node::padding())
                };
                let parent = Box::new(Node::new_internal(left, right));
                proof {
                    assert(level_at(hashes_of(first), h + 1) == next_level(hashes_of(level)));
                    assert(rests_on(*parent, first, h + 1, new_level@.len() as int));
                    lemma_leaves_of_push(new_level@, parent);
                    lemma_leaves_of_prefix(level, c);
                    if c + 1 < n {
                        lemma_leaves_of_prefix(level, c + 1);
                    } else {
                        assert(level.subrange(0, c + 1) =~= level);
                        assert(right.leaves() == seq![padding_hash()]);
                        assert(leaves_of(new_level@.push(parent)) =~= leaves_of(level) + seq![
                            padding_hash(),
                        ]);
                    }
                }
                new_level.push(parent);
            }
            proof {
                assert(hashes_of(new_level@) =~= next_level(hashes_of(level)));
                if n % 2 == 0 {
                    assert(level.subrange(0, n) =~= level);
                }
            }
            proof {
                assert(level_at(hashes_of(first), h + 1) == next_level(hashes_of(level)));
                assert forall|g: nat, m: int|
                    g <= h + 1 && 0 <= m < level_at(hashes_of(first), g).len() implies (#[trigger] level_at(
                    hashes_of(first),
                    g,
                )[m]).len() == DIGEST_LEN by {
                    if g == h + 1 {
                        new_level@[m].lemma_wf_digest_len();
                    }
                }
                h = h + 1;
            }
            *nodes = new_level;
        }
        proof {
            assert(hashes_of(nodes@)[0] == nodes@[0].hash_view());
            assert(nodes@.drop_last() =~= Seq::<Box<Node>>::empty());
            assert(leaves_of(nodes@.drop_last()) =~= Seq::<Seq<u8>>::empty());
            assert(leaves_of(nodes@) =~= nodes@[0].leaves());
        }
        match nodes.pop() {
            Some(x) => x,
            None => Box::new(Node::padding()),
        }
    }

    /// The digest at the root.
    pub fn root_hash(&self) -> (r: &Vec<u8>)
        ensures
            r@ == self.root_hash_view(),
            self.wf() ==> r@.len() == DIGEST_LEN,
    {
        self.root.get_hash()
    }

    /// The inclusion proof of `data`: the sibling path, leaf to root, of the
    /// first leaf (left-first depth-first order) whose digest is that of
    /// `data`. Fails when no leaf carries that digest.
    pub fn generate_proof(&self, data: &[u8]) -> (r: Result<Vec<(Vec<u8>, bool)>, MerkleTreeError>)
        requires
            self.wf(),
        ensures
            r is Ok <==> self.root_node().leaves().contains(sha256_of(data@)),
            r matches Ok(p) ==> first_path(self.root_node(), sha256_of(data@)) == Some(
                proof_view(p@),
            ),
            r matches Ok(p) ==> fold_proof(sha256_of(data@), proof_view(p@))
                == self.root_hash_view(),
            r matches Err(e) ==> e == MerkleTreeError::ProofGenerationFailed,
    {
        let mut proof: Vec<(Vec<u8>, bool)> = Vec::new();
        let data_hash = hash_data(data);
        proof {
            lemma_first_path_found(self.root, data_hash@);
        }
        if !self.generate_proof_recursive(&self.root, &data_hash, &mut proof) {
            return Err(MerkleTreeError::ProofGenerationFailed);
        }
        assert(proof_view(proof@) =~= proof_view(Seq::empty()) + first_path(
            self.root,
            data_hash@,
        )->0);
        proof {
            lemma_first_path_folds(self.root, data_hash@);
        }
        Ok(proof)
    }

    /// Searches `node` left subtree first for a leaf whose digest is
    /// `target_hash`; on success appends its sibling path, leaf to root.
    fn generate_proof_recursive(
        &self,
        node: &Node,
        target_hash: &Vec<u8>,
        proof: &mut Vec<(Vec<u8>, bool)>,
    ) -> (r: bool)
        ensures
            r == first_path(*node, target_hash@) is Some,
            r ==> proof_view(final(proof)@) == proof_view(old(proof)@) + first_path(
                *node,
                target_hash@,
            )->0,
            !r ==> final(proof)@ == old(proof)@,
        decreases node,
    {
        match node {
            Node::Leaf { hash } => {
                let found = bytes_equal(hash.as_slice(), target_hash.as_slice());
                if found {
                    assert(proof_view(old(proof)@) + Seq::empty() =~= proof_view(old(proof)@));
                }
                found
            },
            Node::Internal { left, right, .. } => {
                if self.generate_proof_recursive(left, target_hash, proof) {
                    let sibling = right.get_hash().clone();
                    assert(sibling@ =~= right.hash_view());
                    let ghost mid = proof@;
                    proof.push((sibling, false));
                    assert(proof_view(proof@) =~= proof_view(mid).push((right.hash_view(), false)));
                    assert(proof_view(proof@) =~= proof_view(old(proof)@) + first_path(
                        *node,
                        target_hash@,
                    )->0);
                    true
                } else if self.generate_proof_recursive(right, target_hash, proof) {
                    let sibling = left.get_hash().clone();
                    assert(sibling@ =~= left.hash_view());
                    let ghost mid = proof@;
                    proof.push((sibling, true));
                    assert(proof_view(proof@) =~= proof_view(mid).push((left.hash_view(), true)));
                    assert(proof_view(proof@) =~= proof_view(old(proof)@) + first_path(
                        *node,
                        target_hash@,
                    )->0);
                    true
                } else {
                    false
                }
            },
        }
    }

    /// Whether `proof` leads from the digest of `data` to this tree's root.
    pub fn verify(&self, data: &[u8], proof: &[(Vec<u8>, bool)]) -> (r: bool)
        ensures
            r == (fold_proof(sha256_of(data@), proof_view(proof@)) == self.root_hash_view()),
    {
        Self::verify_proof(data, proof, self.root_hash().as_slice())
    }

    /// Whether `proof` leads from the digest of `data` to `root_hash`: each
    /// step combines the current digest with the sibling's, the sibling first
    /// when it stands to the left.
    pub fn verify_proof(data: &[u8], proof: &[(Vec<u8>, bool)], root_hash: &[u8]) -> (r: bool)
        ensures
            r == (fold_proof(sha256_of(data@), proof_view(proof@)) == root_hash@),
            fold_proof(sha256_of(data@), proof_view(proof@)).len() == DIGEST_LEN,
            root_hash@.len() != DIGEST_LEN ==> !r,
    {
        let ghost start = sha256_of(data@);
        let mut current_hash = hash_data(data);
        let mut i: usize = 0;
        while i < proof.len()
            invariant
                i <= proof@.len(),
                start == sha256_of(data@),
                current_hash@ == fold_proof(start, proof_view(proof@).subrange(0, i as int)),
                current_hash@.len() == DIGEST_LEN,
            decreases proof@.len() - i,
        {
            let (sibling_hash, is_left) = &proof[i];
            let mut combined: Vec<u8> = Vec::with_capacity(64);
            if *is_left {
                combined.extend_from_slice(sibling_hash.as_slice());
                combined.extend_from_slice(current_hash.as_slice());
            } else {
                combined.extend_from_slice(current_hash.as_slice());
                combined.extend_from_slice(sibling_hash.as_slice());
            }
            let ghost step = (sibling_hash@, *is_left);
            assert(combined@ =~= (if step.1 {
                step.0 + current_hash@
            } else {
                current_hash@ + step.0
            }));
            let ghost before = current_hash@;
            current_hash = hash_data(combined.as_slice());
            proof {
                let s = proof_view(proof@).subrange(0, i + 1);
                assert(s.drop_last() =~= proof_view(proof@).subrange(0, i as int));
                assert(s.last() == step);
                assert(current_hash@ == combine(before, step));
            }
            i = i + 1;
        }
        assert(proof_view(proof@).subrange(0, i as int) =~= proof_view(proof@));
        bytes_equal(current_hash.as_slice(), root_hash)
    }
}

/// Byte-for-byte equality of two slices.
fn bytes_equal(a: &[u8], b: &[u8]) -> (r: bool)
    ensures
        r == (a@ == b@),
{
    if a.len() != b.len() {
        return false;
    }
    let mut i: usize = 0;
    while i < a.len()
        invariant
            a@.len() == b@.len(),
            i <= a@.len(),
            forall|j: int| 0 <= j < i ==> a@[j] == b@[j],
        decreases a@.len() - i,
    {
        if a[i] != b[i] {
            return false;
        }
        i = i + 1;
    }
    assert(a@ =~= b@);
    true
}

} // verus!
