//! One Merkle multiproof for several leaves: per level, the siblings that
//! cannot be recomputed from the opened nodes, in increasing node order.
use crate::dbp_ext::distinct_indices;
use crate::hashing::{compress_pair, dviews, poseidon_compress, Digest};
use crate::merkle::{is_pow2, layer_at, lemma_layer_shape, log2, sibling};
use vstd::prelude::*;

verus! {

/// The nodes below `w` that occur in `s`, in increasing order.
pub open spec fn sorted_of(s: Seq<usize>, w: nat) -> Seq<usize>
    decreases w,
{
    if w == 0 {
        seq![]
    } else {
        let p = sorted_of(s, (w - 1) as nat);
        if s.contains((w - 1) as usize) {
            p.push((w - 1) as usize)
        } else {
            p
        }
    }
}

/// The siblings that the first `i` nodes of a level need and that are not
/// themselves opened.
pub open spec fn level_proof(layer: Seq<Seq<u32>>, nodes: Seq<usize>, i: nat) -> Seq<Seq<u32>>
    decreases i,
{
    if i == 0 {
        seq![]
    } else {
        let p = level_proof(layer, nodes, (i - 1) as nat);
        let x = nodes[i - 1] as nat;
        if nodes.contains(sibling(x) as usize) {
            p
        } else {
            p.push(layer[sibling(x) as int])
        }
    }
}

/// The parents of the first `i` nodes, without repeats.
pub open spec fn parents(nodes: Seq<usize>, i: nat) -> Seq<usize>
    decreases i,
{
    if i == 0 {
        seq![]
    } else {
        let p = parents(nodes, (i - 1) as nat);
        let x = nodes[i - 1] / 2;
        if p.len() > 0 && p.last() == x {
            p
        } else {
            p.push(x)
        }
    }
}

/// The multiproof of `nodes` of layer `d` and of their ancestors up to layer `depth`.
pub open spec fn multiproof_of(l: Seq<Seq<u32>>, nodes: Seq<usize>, d: nat, depth: nat) -> Seq<Seq<u32>>
    decreases depth - d,
{
    if d >= depth {
        seq![]
    } else {
        level_proof(layer_at(l, d), nodes, nodes.len()) + multiproof_of(l, parents(nodes, nodes.len()), d + 1, depth)
    }
}

/// Strictly increasing.
pub open spec fn ascending(s: Seq<usize>) -> bool {
    forall|i: int, j: int| 0 <= i < j < s.len() ==> s[i] < s[j]
}

/// `sorted_of` is increasing, below `w`, and holds exactly the members of `s` below `w`.
pub proof fn lemma_sorted_of(s: Seq<usize>, w: nat)
    requires
        w <= usize::MAX,
    ensures
        ascending(sorted_of(s, w)),
        forall|i: int| 0 <= i < sorted_of(s, w).len() ==> #[trigger] sorted_of(s, w)[i] < w,
        forall|x: usize| (x < w && s.contains(x)) <==> #[trigger] sorted_of(s, w).contains(x),
    decreases w,
{
    if w > 0 {
        lemma_sorted_of(s, (w - 1) as nat);
        let p = sorted_of(s, (w - 1) as nat);
        let q = sorted_of(s, w);
        assert forall|x: usize| (x < w && s.contains(x)) <==> #[trigger] q.contains(x) by {
            if p.contains(x) {
                let j = p.index_of(x);
                assert(p[j] < w - 1);
            }
            if s.contains((w - 1) as usize) {
                assert(q == p.push((w - 1) as usize));
                if x == (w - 1) as usize {
                    assert(q[q.len() - 1] == x);
                } else if q.contains(x) {
                    let j = q.index_of(x);
                    assert(p[j] == x);
                } else if p.contains(x) {
                    let j = p.index_of(x);
                    assert(q[j] == x);
                }
            } else {
                assert(q == p);
            }
        }
    }
}

/// The increasing list of the distinct indices below `w`.
pub fn sorted_indices(indices: &[usize], w: usize) -> (r: Vec<usize>)
    requires
        distinct_indices(indices@, w as nat),
    ensures
        r@ == sorted_of(indices@, w as nat),
{
    let mut table: Vec<bool> = Vec::new();
    let mut i: usize = 0;
    while i < w
        invariant
            i <= w,
            table.len() == i,
            forall|j: int| 0 <= j < i ==> !#[trigger] table@[j],
        decreases w - i,
    {
        table.push(false);
        i = i + 1;
    }
    let mut q: usize = 0;
    while q < indices.len()
        invariant
            q <= indices.len(),
            table.len() == w,
            distinct_indices(indices@, w as nat),
            forall|c: int| 0 <= c < w ==> (#[trigger] table@[c] <==> indices@.subrange(0, q as int).contains(c as usize)),
        decreases indices.len() - q,
    {
        let index = indices[q];
        table.set(index, true);
        proof {
            let pre = indices@.subrange(0, q as int);
            let post = indices@.subrange(0, q + 1);
            assert(post =~= pre.push(index));
            assert forall|c: int| 0 <= c < w implies (#[trigger] table@[c] <==> post.contains(c as usize)) by {
                if c == index {
                    assert(post[q as int] == index);
                } else if post.contains(c as usize) {
                    let j = post.index_of(c as usize);
                    assert(pre[j] == c);
                } else if pre.contains(c as usize) {
                    let j = pre.index_of(c as usize);
                    assert(post[j] == c);
                }
            }
        }
        q = q + 1;
    }
    assert(indices@.subrange(0, indices.len() as int) =~= indices@);
    let mut r: Vec<usize> = Vec::new();
    let mut c: usize = 0;
    while c < w
        invariant
            c <= w,
            table.len() == w,
            forall|x: int| 0 <= x < w ==> (#[trigger] table@[x] <==> indices@.contains(x as usize)),
            r@ == sorted_of(indices@, c as nat),
        decreases w - c,
    {
        if table[c] {
            r.push(c);
        }
        c = c + 1;
    }
    r
}

/// Membership flags of the nodes of one level.
fn node_flags(nodes: &Vec<usize>, w: usize) -> (r: Vec<bool>)
    requires
        forall|i: int| 0 <= i < nodes.len() ==> #[trigger] nodes@[i] < w,
    ensures
        r.len() == w,
        forall|x: int| 0 <= x < w ==> (#[trigger] r@[x] <==> nodes@.contains(x as usize)),
{
    let mut table: Vec<bool> = Vec::new();
    let mut i: usize = 0;
    while i < w
        invariant
            i <= w,
            table.len() == i,
            forall|j: int| 0 <= j < i ==> !#[trigger] table@[j],
        decreases w - i,
    {
        table.push(false);
        i = i + 1;
    }
    let mut q: usize = 0;
    while q < nodes.len()
        invariant
            q <= nodes.len(),
            table.len() == w,
            forall|i: int| 0 <= i < nodes.len() ==> #[trigger] nodes@[i] < w,
            forall|c: int| 0 <= c < w ==> (#[trigger] table@[c] <==> nodes@.subrange(0, q as int).contains(c as usize)),
        decreases nodes.len() - q,
    {
        let x = nodes[q];
        table.set(x, true);
        proof {
            let pre = nodes@.subrange(0, q as int);
            let post = nodes@.subrange(0, q + 1);
            assert(post =~= pre.push(x));
            assert forall|c: int| 0 <= c < w implies (#[trigger] table@[c] <==> post.contains(c as usize)) by {
                if c == x {
                    assert(post[q as int] == x);
                } else if post.contains(c as usize) {
                    let j = post.index_of(c as usize);
                    assert(pre[j] == c);
                } else if pre.contains(c as usize) {
                    let j = pre.index_of(c as usize);
                    assert(post[j] == c);
                }
            }
        }
        q = q + 1;
    }
    assert(nodes@.subrange(0, nodes.len() as int) =~= nodes@);
    table
}

/// Parents of in-range nodes of an even-width level are in range of the
/// next level.
proof fn lemma_parents_bound(nodes: Seq<usize>, i: nat, w: nat)
    requires
        i <= nodes.len(),
        forall|j: int| 0 <= j < nodes.len() ==> #[trigger] nodes[j] < w,
        w % 2 == 0,
    ensures
        forall|j: int| 0 <= j < parents(nodes, i).len() ==> #[trigger] parents(nodes, i)[j] < w / 2,
        parents(nodes, i).len() <= i,
    decreases i,
{
    if i > 0 {
        lemma_parents_bound(nodes, (i - 1) as nat, w);
        let p = parents(nodes, (i - 1) as nat);
        let x = nodes[i - 1] / 2;
        assert(nodes[i - 1] < w);
        assert(x < w / 2);
    }
}

/// The multiproof for the distinct leaves `indices`, read off all the
/// layers of the tree.
pub fn outer_merkle_multiproof(layers: &Vec<Vec<Digest>>, indices: &[usize], ghost_leaves: Ghost<Seq<Seq<u32>>>) -> (r: Vec<Digest>)
    requires
        is_pow2(ghost_leaves@.len()),
        layers.len() == log2(ghost_leaves@.len()) + 1,
        forall|d: int| 0 <= d < layers.len() ==> dviews(#[trigger] layers@[d]@) == layer_at(ghost_leaves@, d as nat),
        distinct_indices(indices@, ghost_leaves@.len()),
        ghost_leaves@.len() <= usize::MAX,
    ensures
        dviews(r@) == multiproof_of(
            ghost_leaves@,
            sorted_of(indices@, ghost_leaves@.len()),
            0,
            log2(ghost_leaves@.len()),
        ),
{
    let ghost l = ghost_leaves@;
    let ghost depth = log2(l.len());
    let width0 = layers[0].len();
    assert(width0 == l.len()) by {
        assert(dviews(layers@[0]@).len() == layers@[0]@.len());
    }
    let mut nodes = sorted_indices(indices, width0);
    proof {
        lemma_sorted_of(indices@, width0 as nat);
    }
    let mut proof_out: Vec<Digest> = Vec::new();
    let mut d: usize = 0;
    while d + 1 < layers.len()
        invariant
            layers.len() == depth + 1,
            d <= depth,
            is_pow2(l.len()),
            depth == log2(l.len()),
            forall|e: int| 0 <= e < layers.len() ==> dviews(#[trigger] layers@[e]@) == layer_at(l, e as nat),
            forall|i: int| 0 <= i < nodes.len() ==> #[trigger] nodes@[i] < layer_at(l, d as nat).len(),
            dviews(proof_out@) + multiproof_of(l, nodes@, d as nat, depth) == multiproof_of(
                l,
                sorted_of(indices@, l.len()),
                0,
                depth,
            ),
        decreases depth - d,
    {
        proof {
            lemma_layer_shape(l, d as nat);
            lemma_layer_shape(l, (d + 1) as nat);
        }
        let layer = &layers[d];
        let w = layer.len();
        assert(w == layer_at(l, d as nat).len()) by {
            assert(dviews(layers@[d as int]@).len() == layers@[d as int]@.len());
        }
        proof {
            assert(w % 2 == 0) by {
                if w == 1 {
                    assert(log2(w as nat) == 0);
                }
            }
        }
        let flags = node_flags(&nodes, w);
        let ghost lp_all = level_proof(layer_at(l, d as nat), nodes@, nodes.len() as nat);
        let ghost start = dviews(proof_out@);
        let mut next: Vec<usize> = Vec::new();
        let mut i: usize = 0;
        while i < nodes.len()
            invariant
                i <= nodes.len(),
                d + 1 < layers.len(),
                w == layer.len(),
                w % 2 == 0,
                *layer == layers@[d as int],
                dviews(layer@) == layer_at(l, d as nat),
                flags.len() == w,
                forall|x: int| 0 <= x < w ==> (#[trigger] flags@[x] <==> nodes@.contains(x as usize)),
                forall|j: int| 0 <= j < nodes.len() ==> #[trigger] nodes@[j] < w,
                dviews(proof_out@) == start + level_proof(layer_at(l, d as nat), nodes@, i as nat),
                next@ == parents(nodes@, i as nat),
            decreases nodes.len() - i,
        {
            let node = nodes[i];
            let sib = node ^ 1;
            proof {
                assert(node % 2 == 0 ==> (node ^ 1usize) == node + 1) by (bit_vector);
                assert(node % 2 == 1 ==> (node ^ 1usize) == node - 1) by (bit_vector);
                assert(sib as nat == sibling(node as nat));
            }
            proof {
                assert(dviews(layer@)[sib as int] == layer@[sib as int]@);
                assert(flags@[sib as int] <==> nodes@.contains(sibling(node as nat) as usize));
            }
            let ghost before = proof_out@;
            if !flags[sib] {
                proof_out.push(layer[sib]);
                proof {
                    assert(dviews(proof_out@) =~= dviews(before).push(layer@[sib as int]@));
                }
            }
            let parent = node / 2;
            if next.len() == 0 || next[next.len() - 1] != parent {
                next.push(parent);
            }
            proof {
                let lay = layer_at(l, d as nat);
                assert(nodes@[i as int] == node);
                assert(((i + 1) as nat - 1) as nat == i as nat);
                assert(lay[sibling(node as nat) as int] == layer@[sib as int]@);
                assert(level_proof(lay, nodes@, (i + 1) as nat) == if nodes@.contains(sibling(node as nat) as usize) {
                    level_proof(lay, nodes@, i as nat)
                } else {
                    level_proof(lay, nodes@, i as nat).push(lay[sibling(node as nat) as int])
                });
                assert(dviews(proof_out@) =~= start + level_proof(lay, nodes@, (i + 1) as nat));
            }
            i = i + 1;
        }
        proof {
            lemma_parents_bound(nodes@, nodes.len() as nat, w as nat);
            assert(multiproof_of(l, nodes@, d as nat, depth) == lp_all + multiproof_of(l, parents(nodes@, nodes.len() as nat), (d + 1) as nat, depth));
            assert(dviews(proof_out@) + multiproof_of(l, next@, (d + 1) as nat, depth) =~= start + multiproof_of(l, nodes@, d as nat, depth));
        }
        nodes = next;
        d = d + 1;
    }
    proof {
        assert(multiproof_of(l, nodes@, d as nat, depth) =~= Seq::<Seq<u32>>::empty());
        assert(dviews(proof_out@) + Seq::<Seq<u32>>::empty() =~= dviews(proof_out@));
    }
    proof_out
}

} // verus!

verus! {

/// Some entry has key `key`.
pub open spec fn has_key(entries: Seq<(usize, Seq<u32>)>, key: usize) -> bool {
    exists|j: int| 0 <= j < entries.len() && #[trigger] entries[j].0 == key
}

/// The digest of an entry with key `key`.
pub open spec fn key_value(entries: Seq<(usize, Seq<u32>)>, key: usize) -> Seq<u32> {
    entries[choose|j: int| 0 <= j < entries.len() && #[trigger] entries[j].0 == key].1
}

/// Keys strictly increase.
pub open spec fn ascending_keys(entries: Seq<(usize, Seq<u32>)>) -> bool {
    forall|i: int, j: int| 0 <= i < j < entries.len() ==> entries[i].0 < entries[j].0
}

/// With increasing keys, the entry with a key is unique.
pub proof fn lemma_key_value(entries: Seq<(usize, Seq<u32>)>, j: int)
    requires
        ascending_keys(entries),
        0 <= j < entries.len(),
    ensures
        has_key(entries, entries[j].0),
        key_value(entries, entries[j].0) == entries[j].1,
{
    let key = entries[j].0;
    assert(entries[j].0 == key);
    let c = choose|c: int| 0 <= c < entries.len() && #[trigger] entries[c].0 == key;
    if c < j {
        assert(entries[c].0 < entries[j].0);
    } else if c > j {
        assert(entries[j].0 < entries[c].0);
    }
}

/// With increasing keys, the right neighbour of an even key is present
/// exactly when the next entry holds it.
pub proof fn lemma_right_neighbour(entries: Seq<(usize, Seq<u32>)>, i: int)
    requires
        ascending_keys(entries),
        0 <= i < entries.len(),
        entries[i].0 < usize::MAX,
    ensures
        has_key(entries, (entries[i].0 + 1) as usize) <==> (i + 1 < entries.len() && entries[i + 1].0 == entries[i].0 + 1),
{
    let key = (entries[i].0 + 1) as usize;
    if has_key(entries, key) {
        let c = choose|c: int| 0 <= c < entries.len() && #[trigger] entries[c].0 == key;
        if c <= i {
            if c < i {
                assert(entries[c].0 < entries[i].0);
            }
        } else if c > i + 1 {
            assert(entries[i].0 < entries[i + 1].0);
            assert(entries[i + 1].0 < entries[c].0);
        }
    }
    if i + 1 < entries.len() && entries[i + 1].0 == entries[i].0 + 1 {
        assert(entries[i + 1].0 == key);
    }
}

/// With increasing keys, the left neighbour of a positive key is present
/// exactly when the previous entry holds it.
pub proof fn lemma_left_neighbour(entries: Seq<(usize, Seq<u32>)>, i: int)
    requires
        ascending_keys(entries),
        0 <= i < entries.len(),
        entries[i].0 > 0,
    ensures
        has_key(entries, (entries[i].0 - 1) as usize) <==> (i > 0 && entries[i - 1].0 == entries[i].0 - 1),
{
    let key = (entries[i].0 - 1) as usize;
    if has_key(entries, key) {
        let c = choose|c: int| 0 <= c < entries.len() && #[trigger] entries[c].0 == key;
        if c >= i {
            if c > i {
                assert(entries[i].0 < entries[c].0);
            }
        } else if c < i - 1 {
            assert(entries[c].0 < entries[i - 1].0);
            assert(entries[i - 1].0 < entries[i].0);
        }
    }
    if i > 0 && entries[i - 1].0 == entries[i].0 - 1 {
        assert(entries[i - 1].0 == key);
    }
}

/// One level of multiproof verification over the first `i` entries: the
/// parent entries built so far and the position in the proof, or `None`
/// when the proof runs out or a parent repeats.
pub open spec fn level_fold(entries: Seq<(usize, Seq<u32>)>, proof: Seq<Seq<u32>>, pos0: nat, i: nat) -> Option<(Seq<(usize, Seq<u32>)>, nat)>
    decreases i,
{
    if i == 0 {
        Some((seq![], pos0))
    } else {
        match level_fold(entries, proof, pos0, (i - 1) as nat) {
            None => None,
            Some((next, pos)) => {
                let node = entries[i - 1].0;
                let dg = entries[i - 1].1;
                if node % 2 == 1 && has_key(entries, (node - 1) as usize) {
                    Some((next, pos))
                } else if node % 2 == 0 && has_key(entries, (node + 1) as usize) {
                    let parent = poseidon_compress(dg, key_value(entries, (node + 1) as usize));
                    if next.len() > 0 && next.last().0 == node / 2 {
                        None
                    } else {
                        Some((next.push((node / 2, parent)), pos))
                    }
                } else if pos < proof.len() {
                    let parent = if node % 2 == 0 {
                        poseidon_compress(dg, proof[pos as int])
                    } else {
                        poseidon_compress(proof[pos as int], dg)
                    };
                    if next.len() > 0 && next.last().0 == node / 2 {
                        None
                    } else {
                        Some((next.push((node / 2, parent)), pos + 1))
                    }
                } else {
                    None
                }
            },
        }
    }
}

/// All levels of multiproof verification from width `width` down to one:
/// the digest at node zero, provided the proof is used up exactly.
pub open spec fn fold_levels(width: nat, entries: Seq<(usize, Seq<u32>)>, proof: Seq<Seq<u32>>, pos: nat) -> Option<Seq<u32>>
    decreases width,
{
    if width <= 1 {
        if pos == proof.len() && has_key(entries, 0) {
            Some(key_value(entries, 0))
        } else {
            None
        }
    } else {
        match level_fold(entries, proof, pos, entries.len()) {
            None => None,
            Some((next, p)) => fold_levels(width / 2, next, proof, p),
        }
    }
}

/// Leaf indices are below `count` and distinct.
pub open spec fn leaves_ok(leaves: Seq<(usize, Seq<u32>)>, count: nat) -> bool {
    &&& forall|i: int| 0 <= i < leaves.len() ==> #[trigger] leaves[i].0 < count
    &&& forall|i: int, j: int| 0 <= i < j < leaves.len() ==> leaves[i].0 != leaves[j].0
}

/// The leaves below `w`, ordered by index.
pub open spec fn leaves_entries(leaves: Seq<(usize, Seq<u32>)>, w: nat) -> Seq<(usize, Seq<u32>)>
    decreases w,
{
    if w == 0 {
        seq![]
    } else {
        let p = leaves_entries(leaves, (w - 1) as nat);
        if has_key(leaves, (w - 1) as usize) {
            p.push(((w - 1) as usize, key_value(leaves, (w - 1) as usize)))
        } else {
            p
        }
    }
}

/// The root that a multiproof and its opened leaves authenticate, or `None`
/// when they are malformed or do not fit together.
pub open spec fn multiproof_root(leaf_count: nat, leaves: Seq<(usize, Seq<u32>)>, proof: Seq<Seq<u32>>) -> Option<Seq<u32>> {
    if !is_pow2(leaf_count) || leaves.len() == 0 || !leaves_ok(leaves, leaf_count) {
        None
    } else {
        fold_levels(leaf_count, leaves_entries(leaves, leaf_count), proof, 0)
    }
}

/// The leaf pairs with digests taken by view.
pub open spec fn pair_views(v: Seq<(usize, Digest)>) -> Seq<(usize, Seq<u32>)> {
    v.map_values(|p: (usize, Digest)| (p.0, p.1@))
}

/// Leaves whose keys are all distinct give a key's value from any entry with it.
pub proof fn lemma_distinct_key_value(leaves: Seq<(usize, Seq<u32>)>, j: int)
    requires
        forall|a: int, b: int| 0 <= a < b < leaves.len() ==> leaves[a].0 != leaves[b].0,
        0 <= j < leaves.len(),
    ensures
        has_key(leaves, leaves[j].0),
        key_value(leaves, leaves[j].0) == leaves[j].1,
{
    let key = leaves[j].0;
    assert(leaves[j].0 == key);
    let c = choose|c: int| 0 <= c < leaves.len() && #[trigger] leaves[c].0 == key;
    if c != j {
        if c < j {
            assert(leaves[c].0 != leaves[j].0);
        } else {
            assert(leaves[j].0 != leaves[c].0);
        }
    }
}

/// Verifies a multiproof for the given leaves of a tree with `leaf_count`
/// leaves and returns the root it authenticates, if any.
pub fn verify_outer_merkle_multiproof(leaf_count: usize, leaves: &[(usize, Digest)], proof: &[Digest]) -> (r: Option<Digest>)
    ensures
        match r {
            Some(d) => multiproof_root(leaf_count as nat, pair_views(leaves@), dviews(proof@)) == Some(d@),
            None => multiproof_root(leaf_count as nat, pair_views(leaves@), dviews(proof@)) is None,
        },
{
    let ghost lv = pair_views(leaves@);
    let ghost pv = dviews(proof@);
    if !crate::profile::is_power_of_two(leaf_count) || leaves.len() == 0 {
        return None;
    }
    let mut table: Vec<Option<Digest>> = Vec::new();
    let mut i: usize = 0;
    while i < leaf_count
        invariant
            i <= leaf_count,
            table.len() == i,
            forall|j: int| 0 <= j < i ==> #[trigger] table@[j] is None,
        decreases leaf_count - i,
    {
        table.push(None);
        i = i + 1;
    }
    let mut q: usize = 0;
    while q < leaves.len()
        invariant
            q <= leaves.len(),
            lv == pair_views(leaves@),
            table.len() == leaf_count,
            leaves_ok(lv.subrange(0, q as int), leaf_count as nat),
            forall|c: int| 0 <= c < leaf_count ==> match #[trigger] table@[c] {
                Some(d) => has_key(lv.subrange(0, q as int), c as usize) && key_value(lv.subrange(0, q as int), c as usize) == d@,
                None => !has_key(lv.subrange(0, q as int), c as usize),
            },
        decreases leaves.len() - q,
    {
        let (index, digest) = leaves[q];
        let ghost pre = lv.subrange(0, q as int);
        let ghost post = lv.subrange(0, q + 1);
        proof {
            assert(post =~= pre.push((index, digest@)));
        }
        if index >= leaf_count {
            proof {
                assert(lv[q as int].0 >= leaf_count);
                assert(!leaves_ok(lv, leaf_count as nat));
            }
            return None;
        }
        if table[index].is_some() {
            proof {
                let j = choose|j: int| 0 <= j < pre.len() && #[trigger] pre[j].0 == index;
                assert(lv[j].0 == lv[q as int].0);
                assert(!leaves_ok(lv, leaf_count as nat));
            }
            return None;
        }
        table.set(index, Some(digest));
        proof {
            assert forall|i: int, j: int| 0 <= i < j < post.len() implies post[i].0 != post[j].0 by {
                if j == q {
                    if post[i].0 == index {
                        assert(pre[i].0 == index);
                    }
                }
            }
            assert forall|c: int| 0 <= c < leaf_count implies match #[trigger] table@[c] {
                Some(d) => has_key(post, c as usize) && key_value(post, c as usize) == d@,
                None => !has_key(post, c as usize),
            } by {
                if c == index {
                    assert(post[q as int].0 == index);
                    lemma_distinct_key_value(post, q as int);
                } else {
                    if has_key(post, c as usize) {
                        let j = choose|j: int| 0 <= j < post.len() && #[trigger] post[j].0 == c as usize;
                        assert(pre[j].0 == c);
                        lemma_distinct_key_value(post, j);
                        lemma_distinct_key_value(pre, j);
                    }
                    if has_key(pre, c as usize) {
                        let j = choose|j: int| 0 <= j < pre.len() && #[trigger] pre[j].0 == c as usize;
                        assert(post[j].0 == c);
                    }
                }
            }
        }
        q = q + 1;
    }
    assert(lv.subrange(0, leaves.len() as int) =~= lv);
    let mut entries: Vec<(usize, Digest)> = Vec::new();
    let mut c: usize = 0;
    while c < leaf_count
        invariant
            c <= leaf_count,
            table.len() == leaf_count,
            lv == pair_views(leaves@),
            forall|x: int| 0 <= x < leaf_count ==> match #[trigger] table@[x] {
                Some(d) => has_key(lv, x as usize) && key_value(lv, x as usize) == d@,
                None => !has_key(lv, x as usize),
            },
            pair_views(entries@) == leaves_entries(lv, c as nat),
            forall|j: int| 0 <= j < entries.len() ==> #[trigger] entries@[j].0 < c,
            ascending_keys(pair_views(entries@)),
        decreases leaf_count - c,
    {
        match table[c] {
            Some(d) => {
                let ghost before = entries@;
                entries.push((c, d));
                proof {
                    assert(pair_views(entries@) =~= pair_views(before).push((c, d@)));
                }
            },
            None => {},
        }
        c = c + 1;
    }
    let ghost e0 = pair_views(entries@);
    assert(e0 == leaves_entries(lv, leaf_count as nat));
    assert(multiproof_root(leaf_count as nat, lv, pv) == fold_levels(leaf_count as nat, e0, pv, 0));
    let mut pos: usize = 0;
    let mut width: usize = leaf_count;
    while width > 1
        invariant
            pos <= proof.len(),
            pv == dviews(proof@),
            is_pow2(width as nat),
            ascending_keys(pair_views(entries@)),
            forall|j: int| 0 <= j < entries.len() ==> #[trigger] entries@[j].0 < width,
            fold_levels(width as nat, pair_views(entries@), pv, pos as nat) == fold_levels(leaf_count as nat, e0, pv, 0),
            lv == pair_views(leaves@),
            multiproof_root(leaf_count as nat, lv, pv) == fold_levels(leaf_count as nat, e0, pv, 0),
        decreases width,
    {
        let ghost ev = pair_views(entries@);
        let ghost pos0 = pos as nat;
        let mut next: Vec<(usize, Digest)> = Vec::new();
        let mut i: usize = 0;
        assert(pair_views(next@) =~= Seq::<(usize, Seq<u32>)>::empty());
        while i < entries.len()
            invariant
                i <= entries.len(),
                width > 1,
                width % 2 == 0,
                ev == pair_views(entries@),
                ascending_keys(ev),
                forall|j: int| 0 <= j < entries.len() ==> #[trigger] entries@[j].0 < width,
                pv == dviews(proof@),
                pos <= proof.len(),
                level_fold(ev, pv, pos0, i as nat) == Some((pair_views(next@), pos as nat)),
                ascending_keys(pair_views(next@)),
                lv == pair_views(leaves@),
                multiproof_root(leaf_count as nat, lv, pv) == fold_levels(leaf_count as nat, e0, pv, 0),
                fold_levels(width as nat, ev, pv, pos0) == fold_levels(leaf_count as nat, e0, pv, 0),
                forall|j: int| 0 <= j < next.len() ==> #[trigger] next@[j].0 < width / 2,
                i > 0 ==> forall|j: int| 0 <= j < next.len() ==> #[trigger] next@[j].0 <= entries@[i - 1].0 / 2,
            ensures
                level_fold(ev, pv, pos0, entries.len() as nat) == Some((pair_views(next@), pos as nat)),
                ascending_keys(pair_views(next@)),
                forall|j: int| 0 <= j < next.len() ==> #[trigger] next@[j].0 < width / 2,
            decreases entries.len() - i,
        {
            let (node, dg) = entries[i];
            proof {
                assert(ev[i as int] == (node, dg@));
                if node % 2 == 1 {
                    lemma_left_neighbour(ev, i as int);
                } else {
                    lemma_right_neighbour(ev, i as int);
                }
                if i + 1 < entries.len() {
                    assert(ev[i + 1] == (entries@[i + 1].0, entries@[i + 1].1@));
                    lemma_key_value(ev, i + 1);
                }
                if i > 0 {
                    assert(ev[i - 1].0 == entries@[i - 1].0);
                }
            }
            let ghost next_before = next@;
            if node % 2 == 1 && i > 0 && entries[i - 1].0 == node - 1 {
            } else {
                let parent: Digest;
                if node % 2 == 0 && i + 1 < entries.len() && entries[i + 1].0 == node + 1 {
                    let sib = entries[i + 1].1;
                    parent = compress_pair(&dg, &sib);
                } else {
                    if pos >= proof.len() {
                        proof {
                            assert(level_fold(ev, pv, pos0, (i + 1) as nat) is None);
                            lemma_level_fold_none(ev, pv, pos0, (i + 1) as nat, entries.len() as nat);
                        }
                        return None;
                    }
                    let sib = proof[pos];
                    assert(pv[pos as int] == sib@);
                    if node % 2 == 0 {
                        parent = compress_pair(&dg, &sib);
                    } else {
                        parent = compress_pair(&sib, &dg);
                    }
                    pos = pos + 1;
                }
                if next.len() > 0 && next[next.len() - 1].0 == node / 2 {
                    proof {
                        assert(pair_views(next@).last().0 == node / 2);
                        assert(level_fold(ev, pv, pos0, (i + 1) as nat) is None);
                        lemma_level_fold_none(ev, pv, pos0, (i + 1) as nat, entries.len() as nat);
                    }
                    return None;
                }
                next.push((node / 2, parent));
                proof {
                    assert(pair_views(next@) =~= pair_views(next_before).push((node / 2, parent@)));
                    if next_before.len() > 0 {
                        assert(next_before[next_before.len() - 1].0 <= entries@[i - 1].0 / 2);
                        assert(entries@[i - 1].0 < node);
                    }
                }
            }
            proof {
                if i > 0 {
                    assert(entries@[i - 1].0 < node);
                }
            }
            i = i + 1;
        }
        proof {
            assert(fold_levels(width as nat, ev, pv, pos0) == fold_levels((width / 2) as nat, pair_views(next@), pv, pos as nat));
        }
        entries = next;
        width = width / 2;
    }
    if pos != proof.len() {
        return None;
    }
    let ghost ev = pair_views(entries@);
    let mut j: usize = 0;
    while j < entries.len()
        invariant
            j <= entries.len(),
            ev == pair_views(entries@),
            ascending_keys(ev),
            width <= 1,
            pos == proof.len(),
            pv == dviews(proof@),
            lv == pair_views(leaves@),
            fold_levels(width as nat, ev, pv, pos as nat) == multiproof_root(leaf_count as nat, lv, pv),
            forall|x: int| 0 <= x < j ==> #[trigger] entries@[x].0 != 0,
        decreases entries.len() - j,
    {
        if entries[j].0 == 0 {
            proof {
                assert(ev[j as int] == (entries@[j as int].0, entries@[j as int].1@));
                lemma_key_value(ev, j as int);
            }
            return Some(entries[j].1);
        }
        j = j + 1;
    }
    proof {
        if has_key(ev, 0) {
            let x = choose|x: int| 0 <= x < ev.len() && #[trigger] ev[x].0 == 0usize;
            assert(entries@[x].0 == 0);
        }
    }
    None
}

/// Once a level fails it stays failed.
pub proof fn lemma_level_fold_none(entries: Seq<(usize, Seq<u32>)>, proof: Seq<Seq<u32>>, pos0: nat, i: nat, j: nat)
    requires
        i <= j,
        level_fold(entries, proof, pos0, i) is None,
    ensures
        level_fold(entries, proof, pos0, j) is None,
    decreases j - i,
{
    if i < j {
        lemma_level_fold_none(entries, proof, pos0, i, (j - 1) as nat);
    }
}

} // verus!

verus! {

/// The entries of the nodes `nodes` of a layer, with their digests.
pub open spec fn entries_for(nodes: Seq<usize>, layer: Seq<Seq<u32>>) -> Seq<(usize, Seq<u32>)> {
    Seq::new(nodes.len(), |i: int| (nodes[i], layer[nodes[i] as int]))
}

/// The proof of the first `i` nodes extends that of fewer nodes.
proof fn lemma_level_proof_prefix(layer: Seq<Seq<u32>>, nodes: Seq<usize>, i: nat, j: nat)
    requires
        i <= j,
    ensures
        level_proof(layer, nodes, i).len() <= level_proof(layer, nodes, j).len(),
        level_proof(layer, nodes, i) == level_proof(layer, nodes, j).subrange(0, level_proof(layer, nodes, i).len() as int),
    decreases j - i,
{
    if i < j {
        lemma_level_proof_prefix(layer, nodes, i, (j - 1) as nat);
        let a = level_proof(layer, nodes, i);
        let b = level_proof(layer, nodes, (j - 1) as nat);
        let c = level_proof(layer, nodes, j);
        assert(b == c.subrange(0, b.len() as int));
        assert(a =~= c.subrange(0, a.len() as int));
    }
}

/// Parents of ascending nodes are ascending, and the last parent is the
/// parent of the last node.
proof fn lemma_parents_shape(nodes: Seq<usize>, i: nat)
    requires
        ascending(nodes),
        i <= nodes.len(),
    ensures
        ascending(parents(nodes, i)),
        i > 0 ==> parents(nodes, i).len() > 0 && parents(nodes, i).last() == nodes[i - 1] / 2,
        i == 0 ==> parents(nodes, i).len() == 0,
    decreases i,
{
    if i > 0 {
        lemma_parents_shape(nodes, (i - 1) as nat);
        let p = parents(nodes, (i - 1) as nat);
        if i > 1 {
            assert(nodes[i - 2] < nodes[i - 1]);
            assert(nodes[i - 2] / 2 <= nodes[i - 1] / 2);
        }
    }
}

/// One level of verification over the honest entries of ascending nodes,
/// with the honest level proof at `pos`, gives the honest parent entries.
proof fn lemma_level_fold_honest(
    l: Seq<Seq<u32>>,
    d: nat,
    nodes: Seq<usize>,
    proof: Seq<Seq<u32>>,
    pos: nat,
    i: nat,
)
    requires
        is_pow2(l.len()),
        d < log2(l.len()),
        ascending(nodes),
        forall|j: int| 0 <= j < nodes.len() ==> #[trigger] nodes[j] < layer_at(l, d).len(),
        i <= nodes.len(),
        pos + level_proof(layer_at(l, d), nodes, nodes.len()).len() <= proof.len(),
        forall|j: int| 0 <= j < level_proof(layer_at(l, d), nodes, nodes.len()).len() ==> proof[pos + j]
            == #[trigger] level_proof(layer_at(l, d), nodes, nodes.len())[j],
    ensures
        level_fold(entries_for(nodes, layer_at(l, d)), proof, pos, i) == Some((
            entries_for(parents(nodes, i), layer_at(l, d + 1)),
            pos + level_proof(layer_at(l, d), nodes, i).len(),
        )),
    decreases i,
{
    let layer = layer_at(l, d);
    let e = entries_for(nodes, layer);
    lemma_layer_shape(l, d);
    lemma_layer_shape(l, d + 1);
    assert(layer.len() % 2 == 0) by {
        if layer.len() == 1 {
            assert(log2(layer.len()) == 0);
        }
    }
    if i > 0 {
        lemma_level_fold_honest(l, d, nodes, proof, pos, (i - 1) as nat);
        lemma_parents_shape(nodes, (i - 1) as nat);
        lemma_level_proof_prefix(layer, nodes, i, nodes.len());
        let x = nodes[i - 1];
        let prev = parents(nodes, (i - 1) as nat);
        let lp = level_proof(layer, nodes, (i - 1) as nat);
        assert(e[i - 1] == (x, layer[x as int]));
        assert(ascending_keys(e)) by {
            assert forall|a: int, b: int| 0 <= a < b < e.len() implies e[a].0 < e[b].0 by {
                assert(nodes[a] < nodes[b]);
            }
        }
        // Membership of a key among the entries is membership among the nodes.
        assert forall|key: usize| has_key(e, key) <==> #[trigger] nodes.contains(key) by {
            if has_key(e, key) {
                let j = choose|j: int| 0 <= j < e.len() && #[trigger] e[j].0 == key;
                assert(nodes[j] == key);
            }
            if nodes.contains(key) {
                let j = nodes.index_of(key);
                assert(e[j].0 == key);
            }
        }
        // The previous parent is below the parent of `x` unless `x` is odd
        // and its left neighbour is a node.
        if i > 1 {
            assert(nodes[i - 2] < x);
            lemma_parents_shape(nodes, (i - 1) as nat);
            assert(prev.last() == nodes[i - 2] / 2);
        }
        let parent_layer = layer_at(l, d + 1);
        assert(parent_layer == crate::merkle::pair_layer(layer));
        if x % 2 == 1 && nodes.contains((x - 1) as usize) {
            let j = nodes.index_of((x - 1) as usize);
            assert(nodes[j] == x - 1);
            assert(j == i - 2) by {
                if j < i - 2 {
                    assert(nodes[j] < nodes[i - 2]);
                } else if j > i - 2 {
                    assert(nodes[i - 1] <= nodes[j]) by {
                        if j > i - 1 {
                            assert(nodes[i - 1] < nodes[j]);
                        }
                    }
                }
            }
            assert(sibling(x as nat) == x - 1);
            assert(parents(nodes, i) == prev);
            assert(level_proof(layer, nodes, i) == lp);
        } else if x % 2 == 0 && nodes.contains((x + 1) as usize) {
            let j = nodes.index_of((x + 1) as usize);
            assert(e[j].0 == x + 1);
            assert(ascending_keys(e));
            lemma_key_value(e, j);
            assert(key_value(e, (x + 1) as usize) == layer[x + 1]);
            assert(sibling(x as nat) == x + 1);
            assert(level_proof(layer, nodes, i) == lp);
            assert(parent_layer[(x / 2) as int] == poseidon_compress(layer[2 * (x / 2) as int], layer[2 * (x / 2) as int + 1]));
            assert(parents(nodes, i) == prev.push(x / 2));
            assert(entries_for(parents(nodes, i), parent_layer) =~= entries_for(prev, parent_layer).push((x / 2, parent_layer[(x / 2) as int])));
        } else {
            let s = sibling(x as nat);
            assert(!nodes.contains(s as usize));
            assert(level_proof(layer, nodes, i) == lp.push(layer[s as int]));
            assert(proof[(pos + lp.len()) as int] == level_proof(layer, nodes, nodes.len())[lp.len() as int]);
            assert(level_proof(layer, nodes, nodes.len())[lp.len() as int] == level_proof(layer, nodes, i)[lp.len() as int]);
            assert(parent_layer[(x / 2) as int] == poseidon_compress(layer[2 * (x / 2) as int], layer[2 * (x / 2) as int + 1]));
            assert(parents(nodes, i) == prev.push(x / 2));
            assert(entries_for(parents(nodes, i), parent_layer) =~= entries_for(prev, parent_layer).push((x / 2, parent_layer[(x / 2) as int])));
        }
    }
}

} // verus!

verus! {

/// Folding every remaining level over honest entries with the honest
/// multiproof gives the Merkle root.
proof fn lemma_fold_levels_honest(l: Seq<Seq<u32>>, d: nat, nodes: Seq<usize>, proof: Seq<Seq<u32>>, pos: nat)
    requires
        is_pow2(l.len()),
        d <= log2(l.len()),
        ascending(nodes),
        nodes.len() > 0,
        forall|j: int| 0 <= j < nodes.len() ==> #[trigger] nodes[j] < layer_at(l, d).len(),
        pos <= proof.len(),
        proof.subrange(pos as int, proof.len() as int) == multiproof_of(l, nodes, d, log2(l.len())),
    ensures
        fold_levels(layer_at(l, d).len(), entries_for(nodes, layer_at(l, d)), proof, pos) == Some(crate::merkle::merkle_root(l)),
    decreases log2(l.len()) - d,
{
    let depth = log2(l.len());
    let layer = layer_at(l, d);
    let e = entries_for(nodes, layer);
    lemma_layer_shape(l, d);
    assert(ascending_keys(e)) by {
        assert forall|a: int, b: int| 0 <= a < b < e.len() implies e[a].0 < e[b].0 by {
            assert(nodes[a] < nodes[b]);
        }
    }
    if d == depth {
        assert(layer.len() == 1);
        assert(nodes[0] == 0);
        assert(e[0].0 == 0);
        lemma_key_value(e, 0);
        assert(multiproof_of(l, nodes, d, depth).len() == 0);
    } else {
        let lp = level_proof(layer, nodes, nodes.len());
        let rest = multiproof_of(l, parents(nodes, nodes.len()), d + 1, depth);
        assert(multiproof_of(l, nodes, d, depth) == lp + rest);
        assert forall|j: int| 0 <= j < lp.len() implies proof[pos + j] == #[trigger] lp[j] by {
            assert(proof.subrange(pos as int, proof.len() as int)[j] == (lp + rest)[j]);
        }
        lemma_level_fold_honest(l, d, nodes, proof, pos, nodes.len());
        assert(layer.len() % 2 == 0 && layer.len() >= 2) by {
            if layer.len() == 1 {
                assert(log2(layer.len()) == 0);
            }
        }
        lemma_layer_shape(l, d + 1);
        lemma_parents_shape(nodes, nodes.len());
        lemma_parents_bound(nodes, nodes.len(), layer.len());
        let next = parents(nodes, nodes.len());
        let pos2 = pos + lp.len();
        assert(proof.subrange(pos2 as int, proof.len() as int) =~= rest) by {
            assert(proof.subrange(pos as int, proof.len() as int) == lp + rest);
            assert forall|j: int| 0 <= j < rest.len() implies proof.subrange(pos2 as int, proof.len() as int)[j] == rest[j] by {
                assert(proof.subrange(pos as int, proof.len() as int)[lp.len() + j] == (lp + rest)[lp.len() + j]);
            }
        }
        assert(layer_at(l, d + 1).len() == layer.len() / 2);
        lemma_fold_levels_honest(l, d + 1, next, proof, pos2);
    }
}

/// The leaves of a query, ordered by index, are the honest entries of the
/// sorted indices.
proof fn lemma_leaves_entries_honest(s: Seq<usize>, l: Seq<Seq<u32>>, w: nat)
    requires
        distinct_indices(s, l.len()),
        w <= l.len(),
        l.len() <= usize::MAX,
    ensures
        leaves_entries(Seq::new(s.len(), |i: int| (s[i], l[s[i] as int])), w) == entries_for(sorted_of(s, w), l),
    decreases w,
{
    let pairs = Seq::new(s.len(), |i: int| (s[i], l[s[i] as int]));
    if w > 0 {
        lemma_leaves_entries_honest(s, l, (w - 1) as nat);
        let key = (w - 1) as usize;
        assert(has_key(pairs, key) <==> s.contains(key)) by {
            if has_key(pairs, key) {
                let j = choose|j: int| 0 <= j < pairs.len() && #[trigger] pairs[j].0 == key;
                assert(s[j] == key);
            }
            if s.contains(key) {
                let j = s.index_of(key);
                assert(pairs[j].0 == key);
            }
        }
        if s.contains(key) {
            let j = s.index_of(key);
            assert(pairs[j].0 == key);
            lemma_distinct_key_value(pairs, j);
            assert(entries_for(sorted_of(s, w), l) =~= entries_for(sorted_of(s, (w - 1) as nat), l).push((key, l[key as int])));
        }
    }
}

/// Completeness of multiproofs: the multiproof of a non-empty set of
/// distinct leaves, checked against those leaves, authenticates the root.
pub proof fn lemma_multiproof_complete(l: Seq<Seq<u32>>, s: Seq<usize>)
    requires
        is_pow2(l.len()),
        l.len() <= usize::MAX,
        s.len() > 0,
        distinct_indices(s, l.len()),
    ensures
        multiproof_root(
            l.len(),
            Seq::new(s.len(), |i: int| (s[i], l[s[i] as int])),
            multiproof_of(l, sorted_of(s, l.len()), 0, log2(l.len())),
        ) == Some(crate::merkle::merkle_root(l)),
{
    let pairs = Seq::new(s.len(), |i: int| (s[i], l[s[i] as int]));
    let nodes = sorted_of(s, l.len());
    let proof = multiproof_of(l, nodes, 0, log2(l.len()));
    assert(leaves_ok(pairs, l.len())) by {
        assert forall|i: int, j: int| 0 <= i < j < pairs.len() implies pairs[i].0 != pairs[j].0 by {
            assert(s[i] != s[j]);
        }
    }
    lemma_leaves_entries_honest(s, l, l.len());
    lemma_sorted_of(s, l.len());
    assert(nodes.contains(s[0]));
    assert(proof.subrange(0, proof.len() as int) =~= proof);
    lemma_fold_levels_honest(l, 0, nodes, proof, 0);
}

} // verus!
