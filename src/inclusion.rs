use crate::digest::{padding_hash, sha256_of};
use crate::level::level_at;
use crate::node::Node;
use vstd::prelude::*;

verus! {

/// An inclusion proof as sequences: each step is a sibling digest and whether
/// that sibling stands to the left of the path.
pub open spec fn proof_view(proof: Seq<(Vec<u8>, bool)>) -> Seq<(Seq<u8>, bool)> {
    proof.map_values(|e: (Vec<u8>, bool)| (e.0@, e.1))
}

/// The bytes hashed at one step up the path: the sibling's digest and the
/// current one, the sibling first when it stands to the left.
pub open spec fn step_bytes(current: Seq<u8>, step: (Seq<u8>, bool)) -> Seq<u8> {
    if step.1 {
        step.0 + current
    } else {
        current + step.0
    }
}

/// One step up the path: the current digest combined with its sibling.
pub open spec fn combine(current: Seq<u8>, step: (Seq<u8>, bool)) -> Seq<u8> {
    sha256_of(step_bytes(current, step))
}

/// The digest reached from `start` after every step of `proof`, in order.
pub open spec fn fold_proof(start: Seq<u8>, proof: Seq<(Seq<u8>, bool)>) -> Seq<u8>
    decreases proof.len(),
{
    if proof.len() == 0 {
        start
    } else {
        combine(fold_proof(start, proof.drop_last()), proof.last())
    }
}

/// The bytes hashed at step `j` when `proof` is followed from `start`.
pub open spec fn step_input(start: Seq<u8>, proof: Seq<(Seq<u8>, bool)>, j: int) -> Seq<u8> {
    step_bytes(fold_proof(start, proof.subrange(0, j)), proof[j])
}

/// Position at height `h` of the vertex above leaf position `i`.
pub open spec fn position_at(i: int, h: nat) -> int
    decreases h,
{
    if h == 0 {
        i
    } else {
        position_at(i, (h - 1) as nat) / 2
    }
}

/// The proof step for position `q` of `level`: its right neighbour (the
/// padding digest past the end) when `q` is even, else its left neighbour.
pub open spec fn sibling_step(level: Seq<Seq<u8>>, q: int) -> (Seq<u8>, bool) {
    if q % 2 == 0 {
        (
            if q + 1 < level.len() {
                level[q + 1]
            } else {
                padding_hash()
            },
            false,
        )
    } else {
        (level[q - 1], true)
    }
}

/// The sibling path of leaf position `i` over the leaf digests `hs`, for
/// the first `h` levels, leaf to root.
pub open spec fn level_path(hs: Seq<Seq<u8>>, i: int, h: nat) -> Seq<(Seq<u8>, bool)>
    decreases h,
{
    if h == 0 {
        Seq::empty()
    } else {
        level_path(hs, i, (h - 1) as nat).push(
            sibling_step(level_at(hs, (h - 1) as nat), position_at(i, (h - 1) as nat)),
        )
    }
}

/// The sibling path, leaf to root, of the first leaf (left-first depth-first
/// order) under `node` whose digest is `target`; `None` when there is none.
pub open spec fn first_path(node: Node, target: Seq<u8>) -> Option<Seq<(Seq<u8>, bool)>>
    decreases node,
{
    match node {
        Node::Leaf { hash } => if hash@ == target {
            Some(Seq::empty())
        } else {
            None
        },
        Node::Internal { left, right, .. } => match first_path(*left, target) {
            Some(p) => Some(p.push((right.hash_view(), false))),
            None => match first_path(*right, target) {
                Some(p) => Some(p.push((left.hash_view(), true))),
                None => None,
            },
        },
    }
}

/// A path exists exactly when some leaf under `node` carries `target`.
pub proof fn lemma_first_path_found(node: Node, target: Seq<u8>)
    ensures
        first_path(node, target) is Some <==> node.leaves().contains(target),
    decreases node,
{
    match node {
        Node::Leaf { hash } => {
            if hash@ == target {
                assert(node.leaves()[0] == target);
            }
        },
        Node::Internal { left, right, .. } => {
            lemma_first_path_found(*left, target);
            lemma_first_path_found(*right, target);
            let l = left.leaves();
            let r = right.leaves();
            assert(node.leaves() == l + r);
            if l.contains(target) {
                let i = choose|i: int| 0 <= i < l.len() && l[i] == target;
                assert((l + r)[i] == target);
            }
            if r.contains(target) {
                let i = choose|i: int| 0 <= i < r.len() && r[i] == target;
                assert((l + r)[l.len() + i] == target);
            }
            if (l + r).contains(target) {
                let i = choose|i: int| 0 <= i < (l + r).len() && (l + r)[i] == target;
                if i < l.len() {
                    assert(l[i] == target);
                } else {
                    assert(r[i - l.len()] == target);
                }
            }
        },
    }
}

/// Following the path found for `target` from `target` leads to the digest
/// stored at `node`.
pub proof fn lemma_first_path_folds(node: Node, target: Seq<u8>)
    requires
        node.wf(),
        first_path(node, target) is Some,
    ensures
        fold_proof(target, first_path(node, target)->0) == node.hash_view(),
    decreases node,
{
    match node {
        Node::Leaf { .. } => {},
        Node::Internal { left, right, .. } => {
            match first_path(*left, target) {
                Some(p) => {
                    lemma_first_path_folds(*left, target);
                    assert(p.push((right.hash_view(), false)).drop_last() =~= p);
                },
                None => {
                    let p = first_path(*right, target)->0;
                    lemma_first_path_folds(*right, target);
                    assert(p.push((left.hash_view(), true)).drop_last() =~= p);
                },
            }
        },
    }
}

} // verus!
