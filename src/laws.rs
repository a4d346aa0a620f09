use crate::digest::{padding_hash, sha256_of, DIGEST_LEN};
use crate::inclusion::{
    first_path, fold_proof, lemma_first_path_folds, lemma_first_path_found, level_path,
    position_at, sibling_step, step_bytes, step_input,
};
use crate::level::{
    leaf_hashes, level_at, levels_digest_len, next_level, pair_input, root_of_level, shaped,
    tree_height,
};
use crate::node::Node;
use crate::tree::MerkleTree;
use vstd::prelude::*;

verus! {

/// Two trees built over the same blocks have the same root digest.
pub proof fn law_build_deterministic(t1: MerkleTree, t2: MerkleTree, blocks: Seq<Seq<u8>>)
    requires
        t1.models(blocks),
        t2.models(blocks),
    ensures
        t1.root_hash_view() == t2.root_hash_view(),
{
}

/// A tree over one block has that block's digest as its root, and the empty
/// proof leads from the block's digest to that root.
pub proof fn law_single_block(t: MerkleTree, block: Seq<u8>)
    requires
        t.models(seq![block]),
    ensures
        t.root_hash_view() == sha256_of(block),
        t.root_node() is Leaf,
        first_path(t.root_node(), sha256_of(block)) == Some(Seq::<(Seq<u8>, bool)>::empty()),
        fold_proof(sha256_of(block), Seq::empty()) == t.root_hash_view(),
{
    assert(leaf_hashes(seq![block]).len() == 1);
    assert(tree_height(1) == 0);
}

/// Every block of the tree has an inclusion proof, and that proof leads from
/// the block's digest to the root.
pub proof fn law_complete(t: MerkleTree, blocks: Seq<Seq<u8>>, i: int)
    requires
        t.models(blocks),
        0 <= i < blocks.len(),
    ensures
        t.root_node().leaves().contains(sha256_of(blocks[i])),
        first_path(t.root_node(), sha256_of(blocks[i])) is Some,
        fold_proof(sha256_of(blocks[i]), first_path(t.root_node(), sha256_of(blocks[i]))->0)
            == t.root_hash_view(),
{
    let target = sha256_of(blocks[i]);
    assert(t.root_node().leaves()[i] == leaf_hashes(blocks)[i]);
    lemma_first_path_found(t.root_node(), target);
    lemma_first_path_folds(t.root_node(), target);
}

/// Data whose digest is neither a block's digest nor the padding digest has
/// no leaf in the tree, so no inclusion proof.
pub proof fn law_sound(t: MerkleTree, blocks: Seq<Seq<u8>>, data: Seq<u8>)
    requires
        t.models(blocks),
        forall|i: int| 0 <= i < blocks.len() ==> sha256_of(#[trigger] blocks[i]) != sha256_of(data),
        sha256_of(data) != padding_hash(),
    ensures
        !t.root_node().leaves().contains(sha256_of(data)),
        first_path(t.root_node(), sha256_of(data)) is None,
{
    let leaves = t.root_node().leaves();
    if leaves.contains(sha256_of(data)) {
        let j = choose|j: int| 0 <= j < leaves.len() && leaves[j] == sha256_of(data);
        if j < blocks.len() {
            assert(leaves[j] == leaf_hashes(blocks)[j]);
        }
    }
    lemma_first_path_found(t.root_node(), sha256_of(data));
}

/// A proof that leads to one root does not lead to a different one.
pub proof fn law_root_mismatch(
    start: Seq<u8>,
    proof: Seq<(Seq<u8>, bool)>,
    root: Seq<u8>,
    other: Seq<u8>,
)
    requires
        fold_proof(start, proof) == root,
        other != root,
    ensures
        fold_proof(start, proof) != other,
{
}

/// Concatenations with equal-length first parts are equal only part by part.
proof fn lemma_concat_cancel(a: Seq<u8>, b: Seq<u8>, c: Seq<u8>, d: Seq<u8>)
    requires
        a + b == c + d,
        a.len() == c.len(),
    ensures
        a == c,
        b == d,
{
    assert(a =~= (a + b).subrange(0, a.len() as int));
    assert(c =~= (c + d).subrange(0, c.len() as int));
    assert(b =~= (a + b).subrange(a.len() as int, (a + b).len() as int));
    assert(d =~= (c + d).subrange(c.len() as int, (c + d).len() as int));
}

/// Under a tree over the leaf digests `hs`, a leaf other than a padding leaf
/// lies at the bottom: its path is as long as the vertex is high.
proof fn lemma_shaped_path_len(node: Node, hs: Seq<Seq<u8>>, h: nat, k: int, target: Seq<u8>)
    requires
        shaped(node, hs, h, k),
        target != padding_hash(),
        first_path(node, target) is Some,
    ensures
        first_path(node, target)->0.len() == h,
    decreases h,
{
    if h > 0 {
        match node {
            Node::Internal { left, right, .. } => {
                if first_path(*left, target) is Some {
                    lemma_shaped_path_len(*left, hs, (h - 1) as nat, 2 * k, target);
                } else if 2 * k + 1 < level_at(hs, (h - 1) as nat).len() {
                    lemma_shaped_path_len(*right, hs, (h - 1) as nat, 2 * k + 1, target);
                }
            },
            Node::Leaf { .. } => {},
        }
    }
}

/// The inclusion proof of data whose digest is in the tree, and is not the
/// padding digest, has one step per level: `tree_height(n)` steps for `n`
/// blocks.
pub proof fn law_proof_length(t: MerkleTree, blocks: Seq<Seq<u8>>, data: Seq<u8>)
    requires
        t.models(blocks),
        t.root_node().leaves().contains(sha256_of(data)),
        sha256_of(data) != padding_hash(),
    ensures
        first_path(t.root_node(), sha256_of(data)) is Some,
        first_path(t.root_node(), sha256_of(data))->0.len() == tree_height(blocks.len()),
{
    lemma_first_path_found(t.root_node(), sha256_of(data));
    lemma_shaped_path_len(
        t.root_node(),
        leaf_hashes(blocks),
        tree_height(blocks.len()),
        0,
        sha256_of(data),
    );
}

/// Positions above leaves keep the leaves' order.
proof fn lemma_position_monotone(i: int, j: int, h: nat)
    requires
        0 <= i <= j,
    ensures
        0 <= position_at(i, h) <= position_at(j, h),
    decreases h,
{
    if h > 0 {
        lemma_position_monotone(i, j, (h - 1) as nat);
    }
}

/// The position above a leaf lies within its level.
proof fn lemma_position_in_level(hs: Seq<Seq<u8>>, i: int, h: nat)
    requires
        0 <= i < hs.len(),
    ensures
        0 <= position_at(i, h) < level_at(hs, h).len(),
    decreases h,
{
    if h > 0 {
        lemma_position_in_level(hs, i, (h - 1) as nat);
    }
}

/// No leaf under the vertex at `(h, k)` carries `target`, other than a
/// padding leaf: no path is found there.
proof fn lemma_shaped_absent(node: Node, hs: Seq<Seq<u8>>, h: nat, k: int, target: Seq<u8>)
    requires
        shaped(node, hs, h, k),
        target != padding_hash(),
        forall|j: int| 0 <= j < hs.len() && position_at(j, h) == k ==> #[trigger] hs[j] != target,
    ensures
        first_path(node, target) is None,
    decreases h,
{
    if h == 0 {
        assert(position_at(k, 0) == k);
    } else {
        match node {
            Node::Internal { left, right, .. } => {
                assert forall|j: int|
                    0 <= j < hs.len() && position_at(j, (h - 1) as nat) == 2 * k implies #[trigger] hs[j]
                    != target by {
                    assert(position_at(j, h) == position_at(j, (h - 1) as nat) / 2);
                }
                lemma_shaped_absent(*left, hs, (h - 1) as nat, 2 * k, target);
                if 2 * k + 1 < level_at(hs, (h - 1) as nat).len() {
                    assert forall|j: int|
                        0 <= j < hs.len() && position_at(j, (h - 1) as nat) == 2 * k + 1 implies #[trigger] hs[j]
                        != target by {
                        assert(position_at(j, h) == position_at(j, (h - 1) as nat) / 2);
                    }
                    lemma_shaped_absent(*right, hs, (h - 1) as nat, 2 * k + 1, target);
                }
            },
            Node::Leaf { .. } => {},
        }
    }
}

/// Under the vertex at `(h, k)`, the path found for `target` is the level
/// path of the first leaf position `i` below it that carries `target`.
proof fn lemma_shaped_path(node: Node, hs: Seq<Seq<u8>>, h: nat, k: int, target: Seq<u8>, i: int)
    requires
        shaped(node, hs, h, k),
        target != padding_hash(),
        0 <= i < hs.len(),
        hs[i] == target,
        position_at(i, h) == k,
        forall|j: int| 0 <= j < i && position_at(j, h) == k ==> #[trigger] hs[j] != target,
    ensures
        first_path(node, target) == Some(level_path(hs, i, h)),
    decreases h,
{
    if h == 0 {
        assert(position_at(i, 0) == i);
    } else {
        reveal_with_fuel(shaped, 2);
        let g = (h - 1) as nat;
        let q = position_at(i, g);
        assert(position_at(i, h) == q / 2);
        lemma_position_in_level(hs, i, g);
        match node {
            Node::Internal { left, right, .. } => {
                if q == 2 * k {
                    assert forall|j: int| 0 <= j < i && position_at(j, g) == 2 * k implies #[trigger] hs[j]
                        != target by {
                        assert(position_at(j, h) == position_at(j, g) / 2);
                    }
                    lemma_shaped_path(*left, hs, g, 2 * k, target, i);
                    assert(level_path(hs, i, h) == level_path(hs, i, g).push(
                        sibling_step(level_at(hs, g), q),
                    ));
                    assert(q % 2 == 0);
                    assert(sibling_step(level_at(hs, g), q) == (right.hash_view(), false));
                } else {
                    assert(q == 2 * k + 1);
                    assert forall|j: int|
                        0 <= j < hs.len() && position_at(j, g) == 2 * k implies #[trigger] hs[j]
                        != target by {
                        assert(position_at(j, h) == position_at(j, g) / 2);
                        if j >= i {
                            lemma_position_monotone(i, j, g);
                        }
                    }
                    lemma_shaped_absent(*left, hs, g, 2 * k, target);
                    assert forall|j: int|
                        0 <= j < i && position_at(j, g) == 2 * k + 1 implies #[trigger] hs[j]
                        != target by {
                        assert(position_at(j, h) == position_at(j, g) / 2);
                    }
                    lemma_shaped_path(*right, hs, g, 2 * k + 1, target, i);
                    assert(level_path(hs, i, h) == level_path(hs, i, g).push(
                        sibling_step(level_at(hs, g), q),
                    ));
                    assert(q % 2 == 1);
                    assert(sibling_step(level_at(hs, g), q) == (left.hash_view(), true));
                }
            },
            Node::Leaf { .. } => {},
        }
    }
}

/// The inclusion proof of data whose digest is not the padding digest, and
/// whose first equal block digest is at index `i`, is the level path of leaf
/// position `i`: at each height `g`, the neighbour of the position above `i`,
/// the right one (padding past the end) for an even position, else the left.
pub proof fn law_proof_entries(t: MerkleTree, blocks: Seq<Seq<u8>>, data: Seq<u8>, i: int)
    requires
        t.models(blocks),
        0 <= i < blocks.len(),
        sha256_of(blocks[i]) == sha256_of(data),
        forall|j: int| 0 <= j < i ==> sha256_of(#[trigger] blocks[j]) != sha256_of(data),
        sha256_of(data) != padding_hash(),
    ensures
        first_path(t.root_node(), sha256_of(data)) == Some(
            level_path(leaf_hashes(blocks), i, tree_height(blocks.len())),
        ),
{
    let hs = leaf_hashes(blocks);
    let top = tree_height(blocks.len());
    lemma_position_in_level(hs, i, top);
    assert forall|j: int| 0 <= j < i && position_at(j, top) == 0 implies #[trigger] hs[j] != sha256_of(
        data,
    ) by {
        assert(hs[j] == sha256_of(blocks[j]));
    }
    lemma_shaped_path(t.root_node(), hs, top, 0, sha256_of(data), i);
}

/// Equal step bytes with the same side, where either the current digests or
/// the siblings have equal lengths, have equal current digests and siblings.
proof fn lemma_step_bytes_cancel(
    c1: Seq<u8>,
    e1: (Seq<u8>, bool),
    c2: Seq<u8>,
    e2: (Seq<u8>, bool),
)
    requires
        e1.1 == e2.1,
        step_bytes(c1, e1) == step_bytes(c2, e2),
        c1.len() == c2.len() || e1.0.len() == e2.0.len(),
    ensures
        c1 == c2,
        e1.0 == e2.0,
{
    assert(step_bytes(c1, e1).len() == c1.len() + e1.0.len());
    assert(step_bytes(c2, e2).len() == c2.len() + e2.0.len());
    if e1.1 {
        lemma_concat_cancel(e1.0, c1, e2.0, c2);
    } else {
        lemma_concat_cancel(c1, e1.0, c2, e2.0);
    }
}

/// Proofs that differ only in the sibling digest of step `k`, and lead from
/// the same start to the same digest, hash two different byte sequences to
/// one digest at some step from `k` on.
proof fn lemma_fold_one_step_changed(
    start: Seq<u8>,
    p: Seq<(Seq<u8>, bool)>,
    q: Seq<(Seq<u8>, bool)>,
    k: int,
)
    requires
        p.len() == q.len(),
        0 <= k < p.len(),
        p[k].0 != q[k].0,
        p[k].1 == q[k].1,
        forall|j: int| 0 <= j < p.len() && j != k ==> p[j] == q[j],
        fold_proof(start, p) == fold_proof(start, q),
    ensures
        exists|j: int|
            k <= j < p.len() && step_input(start, p, j) != step_input(start, q, j) && sha256_of(
                #[trigger] step_input(start, p, j),
            ) == sha256_of(step_input(start, q, j)),
    decreases p.len(),
{
    let n = p.len() - 1;
    let pd = p.drop_last();
    let qd = q.drop_last();
    assert(pd =~= p.subrange(0, n));
    assert(qd =~= q.subrange(0, n));
    let x = step_input(start, p, n);
    let y = step_input(start, q, n);
    assert(sha256_of(x) == sha256_of(y));
    if x == y {
        if k == n {
            assert(pd =~= qd);
        }
        lemma_step_bytes_cancel(fold_proof(start, pd), p[n], fold_proof(start, qd), q[n]);
        lemma_fold_one_step_changed(start, pd, qd, k);
        let j = choose|j: int|
            k <= j < pd.len() && step_input(start, pd, j) != step_input(start, qd, j) && sha256_of(
                #[trigger] step_input(start, pd, j),
            ) == sha256_of(step_input(start, qd, j));
        assert(pd.subrange(0, j) =~= p.subrange(0, j));
        assert(qd.subrange(0, j) =~= q.subrange(0, j));
        assert(step_input(start, pd, j) == step_input(start, p, j));
        assert(step_input(start, qd, j) == step_input(start, q, j));
    }
}

/// Changing one byte of one sibling digest in a proof that leads to `root`
/// yields a proof that no longer leads to `root`, unless SHA-256 gives one
/// digest to the two different byte sequences hashed at some step from the
/// changed one on.
pub proof fn law_tamper_detected(
    start: Seq<u8>,
    proof: Seq<(Seq<u8>, bool)>,
    root: Seq<u8>,
    k: int,
    j: int,
    byte: u8,
)
    requires
        fold_proof(start, proof) == root,
        0 <= k < proof.len(),
        0 <= j < proof[k].0.len(),
        byte != proof[k].0[j],
    ensures
        ({
            let tampered = proof.update(k, (proof[k].0.update(j, byte), proof[k].1));
            fold_proof(start, tampered) == root ==> exists|s: int|
                k <= s < proof.len() && step_input(start, proof, s) != step_input(
                    start,
                    tampered,
                    s,
                ) && sha256_of(#[trigger] step_input(start, proof, s)) == sha256_of(
                    step_input(start, tampered, s),
                )
        }),
{
    let tampered = proof.update(k, (proof[k].0.update(j, byte), proof[k].1));
    if fold_proof(start, tampered) == root {
        assert(proof[k].0.update(j, byte)[j] != proof[k].0[j]);
        lemma_fold_one_step_changed(start, proof, tampered, k);
    }
}

/// Levels over leaf digests of equal count have equal lengths at every
/// height, and are non-empty when the leaves are.
proof fn lemma_level_len(ha: Seq<Seq<u8>>, hb: Seq<Seq<u8>>, g: nat)
    requires
        ha.len() == hb.len(),
    ensures
        level_at(ha, g).len() == level_at(hb, g).len(),
        ha.len() > 0 ==> level_at(ha, g).len() > 0,
    decreases g,
{
    if g > 0 {
        lemma_level_len(ha, hb, (g - 1) as nat);
    }
}

/// Two different levels at height `g`, over leaf digests of equal count whose
/// levels up to the top `top` hold 32-byte digests, reduce to the same root
/// only if SHA-256 gives one digest to two different pair inputs at some
/// height from `g` on.
proof fn lemma_level_collision(ha: Seq<Seq<u8>>, hb: Seq<Seq<u8>>, g: nat, top: nat)
    requires
        ha.len() == hb.len(),
        ha.len() > 0,
        g <= top,
        level_at(ha, top).len() == 1,
        levels_digest_len(ha, top),
        levels_digest_len(hb, top),
        level_at(ha, g) != level_at(hb, g),
        root_of_level(level_at(ha, g)) == root_of_level(level_at(hb, g)),
    ensures
        exists|f: nat, m: int|
            g <= f < top && pair_input(level_at(ha, f), m) != pair_input(level_at(hb, f), m)
                && sha256_of(#[trigger] pair_input(level_at(ha, f), m)) == sha256_of(
                pair_input(level_at(hb, f), m),
            ),
    decreases top - g,
{
    let la = level_at(ha, g);
    let lb = level_at(hb, g);
    lemma_level_len(ha, hb, g);
    let kk = choose|kk: int| 0 <= kk < la.len() && la[kk] != lb[kk];
    if !(0 <= kk < la.len() && la[kk] != lb[kk]) {
        assert(la =~= lb);
    }
    if la.len() <= 1 {
        assert(la[0] == lb[0]);
    } else {
        assert(g < top);
        let na = level_at(ha, g + 1);
        let nb = level_at(hb, g + 1);
        assert(na == next_level(la));
        assert(nb == next_level(lb));
        if na != nb {
            lemma_level_collision(ha, hb, g + 1, top);
            let (f, m) = choose|f: nat, m: int|
                g + 1 <= f < top && pair_input(level_at(ha, f), m) != pair_input(level_at(hb, f), m)
                    && sha256_of(#[trigger] pair_input(level_at(ha, f), m)) == sha256_of(
                    pair_input(level_at(hb, f), m),
                );
            assert(g <= f < top);
        } else {
            let m = kk / 2;
            assert(na[m] == nb[m]);
            assert(la[2 * m].len() == DIGEST_LEN);
            assert(lb[2 * m].len() == DIGEST_LEN);
            if pair_input(la, m) == pair_input(lb, m) {
                let sa = if 2 * m + 1 < la.len() { la[2 * m + 1] } else { padding_hash() };
                let sb = if 2 * m + 1 < lb.len() { lb[2 * m + 1] } else { padding_hash() };
                lemma_concat_cancel(la[2 * m], sa, lb[2 * m], sb);
                assert(kk == 2 * m || kk == 2 * m + 1);
            }
            assert(sha256_of(pair_input(la, m)) == sha256_of(pair_input(lb, m)));
        }
    }
}

/// Trees over two lists of blocks that differ in exactly one block have
/// different root digests, unless SHA-256 gives one digest to the two
/// different blocks, or to two different pair inputs at some level.
pub proof fn law_root_sensitive(
    t1: MerkleTree,
    t2: MerkleTree,
    a: Seq<Seq<u8>>,
    b: Seq<Seq<u8>>,
    i: int,
)
    requires
        t1.models(a),
        t2.models(b),
        a.len() == b.len(),
        0 <= i < a.len(),
        a[i] != b[i],
        forall|j: int| 0 <= j < a.len() && j != i ==> a[j] == b[j],
    ensures
        t1.root_hash_view() == t2.root_hash_view() ==> sha256_of(a[i]) == sha256_of(b[i]) || exists|
            f: nat,
            m: int,
        |
            f < tree_height(a.len()) && pair_input(level_at(leaf_hashes(a), f), m) != pair_input(
                level_at(leaf_hashes(b), f),
                m,
            ) && sha256_of(#[trigger] pair_input(level_at(leaf_hashes(a), f), m)) == sha256_of(
                pair_input(level_at(leaf_hashes(b), f), m),
            ),
{
    let ha = leaf_hashes(a);
    let hb = leaf_hashes(b);
    if t1.root_hash_view() == t2.root_hash_view() && ha[i] != hb[i] {
        assert(level_at(ha, 0) == ha);
        assert(level_at(hb, 0) == hb);
        lemma_level_collision(ha, hb, 0, tree_height(a.len()));
    }
}

} // verus!
