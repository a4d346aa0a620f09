use crate::digest::{padding_hash, sha256_of, DIGEST_LEN};
use crate::node::Node;
use vstd::prelude::*;

verus! {

/// The digests of a list of blocks, one leaf digest per block, in order.
pub open spec fn leaf_hashes(blocks: Seq<Seq<u8>>) -> Seq<Seq<u8>> {
    blocks.map_values(|b: Seq<u8>| sha256_of(b))
}

/// The bytes hashed for the `k`-th vertex of the level above `level`: the
/// digests at positions `2k` and `2k + 1`, the second replaced by the padding
/// digest when the level has odd length and `2k` is its last position.
pub open spec fn pair_input(level: Seq<Seq<u8>>, k: int) -> Seq<u8> {
    level[2 * k] + if 2 * k + 1 < level.len() {
        level[2 * k + 1]
    } else {
        padding_hash()
    }
}

/// Digest of the `k`-th vertex of the level above `level`.
pub open spec fn pair_hash(level: Seq<Seq<u8>>, k: int) -> Seq<u8> {
    sha256_of(pair_input(level, k))
}

/// The level above `level`: adjacent pairs combined left to right.
pub open spec fn next_level(level: Seq<Seq<u8>>) -> Seq<Seq<u8>> {
    Seq::new(((level.len() + 1) / 2) as nat, |k: int| pair_hash(level, k))
}

/// The digest that remains once `level` has been reduced to a single vertex.
pub open spec fn root_of_level(level: Seq<Seq<u8>>) -> Seq<u8>
    decreases level.len(),
{
    if level.len() <= 1 {
        level[0]
    } else {
        root_of_level(next_level(level))
    }
}

/// The level `h` rounds of pairing above `level`.
pub open spec fn level_at(level: Seq<Seq<u8>>, h: nat) -> Seq<Seq<u8>>
    decreases h,
{
    if h == 0 {
        level
    } else {
        next_level(level_at(level, (h - 1) as nat))
    }
}

/// Number of pairing rounds that reduce `n` vertices to one: the smallest
/// `h` with `n <= 2^h`.
pub open spec fn tree_height(n: nat) -> nat
    decreases n,
{
    if n <= 1 {
        0
    } else {
        1 + tree_height(((n + 1) / 2) as nat)
    }
}

/// Every digest of every level from `level` up to height `h` is 32 bytes.
pub open spec fn levels_digest_len(level: Seq<Seq<u8>>, h: nat) -> bool {
    forall|g: nat, m: int|
        g <= h && 0 <= m < level_at(level, g).len() ==> (#[trigger] level_at(level, g)[m]).len()
            == DIGEST_LEN
}

/// `node` is the vertex at height `h` and position `k` of the tree over the
/// leaf digests `hs`: it stores `level_at(hs, h)[k]`; at height 0 it is the
/// leaf of `hs[k]`; above, its children are the vertices at `(h - 1, 2k)` and
/// `(h - 1, 2k + 1)`, the second a padding leaf when that position is past
/// the end of its level.
pub open spec fn shaped(node: Node, hs: Seq<Seq<u8>>, h: nat, k: int) -> bool
    decreases h,
{
    &&& 0 <= k < level_at(hs, h).len()
    &&& node.hash_view() == level_at(hs, h)[k]
    &&& if h == 0 {
        node is Leaf
    } else {
        match node {
            Node::Leaf { .. } => false,
            Node::Internal { left, right, .. } => {
                &&& shaped(*left, hs, (h - 1) as nat, 2 * k)
                &&& if 2 * k + 1 < level_at(hs, (h - 1) as nat).len() {
                    shaped(*right, hs, (h - 1) as nat, 2 * k + 1)
                } else {
                    &&& *right is Leaf
                    &&& right.hash_view() == padding_hash()
                }
            },
        }
    }
}

/// The root digest of the tree over `blocks`.
pub open spec fn merkle_root(blocks: Seq<Seq<u8>>) -> Seq<u8> {
    root_of_level(leaf_hashes(blocks))
}

/// The digests stored at a list of vertices.
pub open spec fn hashes_of(nodes: Seq<Box<Node>>) -> Seq<Seq<u8>> {
    nodes.map_values(|n: Box<Node>| n.hash_view())
}

/// The leaf digests under a list of vertices, left to right.
pub open spec fn leaves_of(nodes: Seq<Box<Node>>) -> Seq<Seq<u8>>
    decreases nodes.len(),
{
    if nodes.len() == 0 {
        seq![]
    } else {
        leaves_of(nodes.drop_last()) + nodes.last().leaves()
    }
}

/// `leaves` begins with `prefix` and holds only padding digests after it.
pub open spec fn padded_after(leaves: Seq<Seq<u8>>, prefix: Seq<Seq<u8>>) -> bool {
    &&& prefix.len() <= leaves.len()
    &&& forall|i: int| 0 <= i < prefix.len() ==> leaves[i] == prefix[i]
    &&& forall|i: int| prefix.len() <= i < leaves.len() ==> leaves[i] == padding_hash()
}

/// Appending a vertex appends its leaves.
pub proof fn lemma_leaves_of_push(nodes: Seq<Box<Node>>, n: Box<Node>)
    ensures
        leaves_of(nodes.push(n)) == leaves_of(nodes) + n.leaves(),
{
    assert(nodes.push(n).drop_last() =~= nodes);
}

/// Extending a prefix of a list of vertices by one vertex appends its leaves.
pub proof fn lemma_leaves_of_prefix(nodes: Seq<Box<Node>>, c: int)
    requires
        0 <= c < nodes.len(),
    ensures
        leaves_of(nodes.subrange(0, c + 1)) == leaves_of(nodes.subrange(0, c)) + nodes[c].leaves(),
{
    assert(nodes.subrange(0, c + 1) =~= nodes.subrange(0, c).push(nodes[c]));
    lemma_leaves_of_push(nodes.subrange(0, c), nodes[c]);
}

} // verus!
