//! Binary Merkle trees of Poseidon digests over power-of-two leaf counts:
//! all layers, roots, authentication paths, and path verification.
use crate::field::all_fe;
use crate::hashing::{compress_pair, dviews, poseidon_compress, Digest};
use vstd::prelude::*;

verus! {

/// `n` is a power of two.
pub open spec fn is_pow2(n: nat) -> bool
    decreases n,
{
    if n == 1 {
        true
    } else if n == 0 || n % 2 == 1 {
        false
    } else {
        is_pow2(n / 2)
    }
}

/// Floor of the base-two logarithm (zero for `n <= 1`).
pub open spec fn log2(n: nat) -> nat
    decreases n,
{
    if n <= 1 {
        0
    } else {
        1 + log2(n / 2)
    }
}

/// `2^e`.
pub open spec fn pow2(e: nat) -> nat
    decreases e,
{
    if e == 0 {
        1
    } else {
        2 * pow2((e - 1) as nat)
    }
}

/// The parent layer: each pair of adjacent nodes compressed.
pub open spec fn pair_layer(l: Seq<Seq<u32>>) -> Seq<Seq<u32>> {
    Seq::new(l.len() / 2, |i: int| poseidon_compress(l[2 * i], l[2 * i + 1]))
}

/// Layer `d` above the leaves.
pub open spec fn layer_at(l: Seq<Seq<u32>>, d: nat) -> Seq<Seq<u32>>
    decreases d,
{
    if d == 0 {
        l
    } else {
        pair_layer(layer_at(l, (d - 1) as nat))
    }
}

/// The Merkle root of a power-of-two number of leaves.
pub open spec fn merkle_root(l: Seq<Seq<u32>>) -> Seq<u32> {
    layer_at(l, log2(l.len()))[0]
}

/// The other child of the same parent.
pub open spec fn sibling(i: nat) -> nat {
    if i % 2 == 0 {
        i + 1
    } else {
        (i - 1) as nat
    }
}

/// Folds a leaf digest up an authentication path: at each level the running
/// digest is the left input when its node index is even.
pub open spec fn path_root(leaf: Seq<u32>, index: nat, path: Seq<Seq<u32>>) -> Seq<u32>
    decreases path.len(),
{
    if path.len() == 0 {
        leaf
    } else {
        let parent = if index % 2 == 0 {
            poseidon_compress(leaf, path[0])
        } else {
            poseidon_compress(path[0], leaf)
        };
        path_root(parent, index / 2, path.drop_first())
    }
}

/// The siblings of node `node` of layer `d` and of its ancestors, up to layer `depth`.
pub open spec fn auth_path(l: Seq<Seq<u32>>, d: nat, depth: nat, node: nat) -> Seq<Seq<u32>>
    decreases depth - d,
{
    if d >= depth {
        seq![]
    } else {
        seq![layer_at(l, d)[sibling(node) as int]] + auth_path(l, d + 1, depth, node / 2)
    }
}

/// Layers above a power-of-two leaf count are powers of two whose logarithm
/// drops by one per level.
pub proof fn lemma_layer_shape(l: Seq<Seq<u32>>, d: nat)
    requires
        is_pow2(l.len()),
        d <= log2(l.len()),
    ensures
        is_pow2(layer_at(l, d).len()),
        log2(layer_at(l, d).len()) + d == log2(l.len()),
        layer_at(l, d).len() == pow2((log2(l.len()) - d) as nat),
    decreases d,
{
    if d == 0 {
        lemma_pow2_log2(l.len());
    } else {
        lemma_layer_shape(l, (d - 1) as nat);
        let m = layer_at(l, (d - 1) as nat).len();
        assert(m >= 2) by {
            if m <= 1 {
                assert(log2(m) == 0);
            }
        }
        lemma_pow2_log2(m / 2);
    }
}

/// A power of two equals two to its logarithm.
pub proof fn lemma_pow2_log2(n: nat)
    requires
        is_pow2(n),
    ensures
        n == pow2(log2(n)),
        n >= 1,
    decreases n,
{
    if n != 1 {
        lemma_pow2_log2(n / 2);
    }
}

/// Completeness of authentication paths: folding a node of layer `d` up its
/// authentication path gives the Merkle root.
pub proof fn lemma_auth_path_root(l: Seq<Seq<u32>>, d: nat, node: nat)
    requires
        is_pow2(l.len()),
        d <= log2(l.len()),
        node < layer_at(l, d).len(),
    ensures
        path_root(layer_at(l, d)[node as int], node, auth_path(l, d, log2(l.len()), node))
            == merkle_root(l),
    decreases log2(l.len()) - d,
{
    let depth = log2(l.len());
    lemma_layer_shape(l, d);
    if d == depth {
        assert(layer_at(l, d).len() == 1);
        assert(node == 0);
    } else {
        let cur = layer_at(l, d);
        lemma_layer_shape(l, d + 1);
        assert(cur.len() % 2 == 0) by {
            assert(log2(cur.len()) >= 1);
            if cur.len() == 1 {
                assert(log2(cur.len()) == 0);
            }
        }
        let path = auth_path(l, d, depth, node);
        assert(path[0] == cur[sibling(node) as int]);
        assert(path.drop_first() =~= auth_path(l, d + 1, depth, node / 2));
        let parent = layer_at(l, d + 1)[(node / 2) as int];
        if node % 2 == 0 {
            assert(parent == poseidon_compress(cur[node as int], cur[sibling(node) as int]));
        } else {
            assert(parent == poseidon_compress(cur[sibling(node) as int], cur[node as int]));
        }
        lemma_auth_path_root(l, d + 1, node / 2);
    }
}

/// Copies a list of digests.
pub fn copy_digests(v: &Vec<Digest>) -> (r: Vec<Digest>)
    ensures
        r@ == v@,
{
    let mut r: Vec<Digest> = Vec::new();
    let mut i: usize = 0;
    while i < v.len()
        invariant
            i <= v.len(),
            r@ == v@.subrange(0, i as int),
        decreases v.len() - i,
    {
        r.push(v[i]);
        i = i + 1;
    }
    assert(r@ =~= v@);
    r
}

/// All digests of a list are canonical.
pub open spec fn all_digests_fe(v: Seq<Digest>) -> bool {
    forall|i: int| 0 <= i < v.len() ==> all_fe(#[trigger] v[i]@)
}

/// The parent layer of a layer with an even number of nodes.
pub fn next_layer(cur: &Vec<Digest>) -> (r: Vec<Digest>)
    ensures
        r.len() == cur.len() / 2,
        dviews(r@) == pair_layer(dviews(cur@)),
        all_digests_fe(r@),
{
    let half = cur.len() / 2;
    let mut r: Vec<Digest> = Vec::new();
    let mut i: usize = 0;
    while i < half
        invariant
            i <= half,
            half == cur.len() / 2,
            r.len() == i,
            forall|j: int| 0 <= j < i ==> #[trigger] r@[j]@ == poseidon_compress(cur@[2 * j]@, cur@[2 * j + 1]@),
            all_digests_fe(r@),
        decreases half - i,
    {
        let parent = compress_pair(&cur[2 * i], &cur[2 * i + 1]);
        r.push(parent);
        i = i + 1;
    }
    assert(dviews(r@) =~= pair_layer(dviews(cur@)));
    r
}

/// All layers of the Merkle tree over `leaves`, from the leaves up to the root.
pub fn merkle_layers(leaves: &Vec<Digest>) -> (layers: Vec<Vec<Digest>>)
    requires
        is_pow2(leaves.len() as nat),
    ensures
        layers.len() == log2(leaves.len() as nat) + 1,
        forall|d: int| 0 <= d < layers.len() ==> dviews(#[trigger] layers@[d]@) == layer_at(dviews(leaves@), d as nat),
        layers@[layers.len() - 1].len() == 1,
        layers@[layers.len() - 1]@[0]@ == merkle_root(dviews(leaves@)),
{
    let ghost l = dviews(leaves@);
    let mut layers: Vec<Vec<Digest>> = Vec::new();
    let mut current = copy_digests(leaves);
    layers.push(copy_digests(&current));
    let ghost mut d: nat = 0;
    while current.len() > 1
        invariant
            l == dviews(leaves@),
            l.len() == leaves.len(),
            layers.len() == d + 1,
            dviews(current@) == layer_at(l, d),
            forall|j: int| 0 <= j < layers.len() ==> dviews(#[trigger] layers@[j]@) == layer_at(l, j as nat),
            is_pow2(current.len() as nat),
            log2(current.len() as nat) + d == log2(l.len()),
        decreases current.len(),
    {
        let next = next_layer(&current);
        assert(is_pow2((current.len() / 2) as nat));
        proof {
            d = d + 1;
        }
        layers.push(copy_digests(&next));
        current = next;
    }
    proof {
        assert(d == log2(l.len()));
    }
    layers
}

/// The root of the Merkle tree over `leaves`.
pub fn merkle_root_of(leaves: &Vec<Digest>) -> (r: Digest)
    requires
        is_pow2(leaves.len() as nat),
    ensures
        r@ == merkle_root(dviews(leaves@)),
{
    let layers = merkle_layers(leaves);
    let top = layers.len() - 1;
    layers[top][0]
}

/// Folds `leaf` up `path` from node `index`.
pub fn fold_path(leaf: &Digest, index: usize, path: &Vec<Digest>) -> (r: Digest)
    ensures
        r@ == path_root(leaf@, index as nat, dviews(path@)),
{
    let mut digest = *leaf;
    let mut node = index;
    let mut i: usize = 0;
    assert(dviews(path@).subrange(0, path.len() as int) =~= dviews(path@));
    while i < path.len()
        invariant
            i <= path.len(),
            path_root(digest@, node as nat, dviews(path@).subrange(i as int, path.len() as int))
                == path_root(leaf@, index as nat, dviews(path@)),
        decreases path.len() - i,
    {
        proof {
            let rest = dviews(path@).subrange(i as int, path.len() as int);
            assert(rest.drop_first() =~= dviews(path@).subrange(i + 1, path.len() as int));
        }
        if node % 2 == 0 {
            digest = compress_pair(&digest, &path[i]);
        } else {
            digest = compress_pair(&path[i], &digest);
        }
        node = node / 2;
        i = i + 1;
    }
    proof {
        assert(dviews(path@).subrange(path.len() as int, path.len() as int) =~= Seq::<Seq<u32>>::empty());
    }
    digest
}

/// The authentication path of leaf `index` read off precomputed layers.
pub(crate) fn path_from_layers(layers: &Vec<Vec<Digest>>, index: usize, depth: usize, ghost_leaves: Ghost<Seq<Seq<u32>>>) -> (r: Vec<Digest>)
    requires
        is_pow2(ghost_leaves@.len()),
        depth == log2(ghost_leaves@.len()),
        layers.len() >= depth,
        forall|d: int| 0 <= d < depth ==> dviews(#[trigger] layers@[d]@) == layer_at(ghost_leaves@, d as nat),
        index < ghost_leaves@.len(),
    ensures
        dviews(r@) == auth_path(ghost_leaves@, 0, depth as nat, index as nat),
{
    let ghost l = ghost_leaves@;
    let mut r: Vec<Digest> = Vec::new();
    let mut node = index;
    let mut d: usize = 0;
    while d < depth
        invariant
            d <= depth,
            depth == log2(l.len()),
            is_pow2(l.len()),
            layers.len() >= depth,
            forall|j: int| 0 <= j < depth ==> dviews(#[trigger] layers@[j]@) == layer_at(l, j as nat),
            node < layer_at(l, d as nat).len(),
            dviews(r@) + auth_path(l, d as nat, depth as nat, node as nat) == auth_path(l, 0, depth as nat, index as nat),
        decreases depth - d,
    {
        proof {
            lemma_layer_shape(l, d as nat);
            lemma_layer_shape(l, (d + 1) as nat);
            let len = layer_at(l, d as nat).len();
            assert(len % 2 == 0) by {
                if len == 1 {
                    assert(log2(len) == 0);
                }
            }
            assert(node % 2 == 0 ==> (node ^ 1usize) == node + 1) by (bit_vector);
            assert(node % 2 == 1 ==> (node ^ 1usize) == node - 1) by (bit_vector);
        }
        let s = layers[d][node ^ 1];
        r.push(s);
        proof {
            let a = auth_path(l, d as nat, depth as nat, node as nat);
            assert(a =~= seq![s@] + auth_path(l, (d + 1) as nat, depth as nat, (node / 2) as nat));
            assert(dviews(r@) =~= dviews(r@.drop_last()).push(s@));
        }
        node = node / 2;
        d = d + 1;
    }
    assert(dviews(r@) =~= auth_path(l, 0, depth as nat, index as nat));
    r
}

} // verus!

verus! {

/// The root over a power-of-two number of leaves, computed level by level
/// in one buffer without keeping the levels.
pub fn merkle_root_in_place(leaves: &[Digest]) -> (r: Digest)
    requires
        is_pow2(leaves.len() as nat),
    ensures
        r@ == merkle_root(dviews(leaves@)),
{
    let ghost l = dviews(leaves@);
    if leaves.len() == 16 {
        let mut v: Vec<Digest> = Vec::new();
        let mut i: usize = 0;
        while i < 16
            invariant
                i <= 16,
                leaves.len() == 16,
                v@ == leaves@.subrange(0, i as int),
            decreases 16 - i,
        {
            v.push(leaves[i]);
            i = i + 1;
        }
        assert(v@ =~= leaves@);
        return merkle_root_16(&v);
    }
    let mut layer: Vec<Digest> = Vec::new();
    let mut i: usize = 0;
    while i < leaves.len()
        invariant
            i <= leaves.len(),
            layer@ == leaves@.subrange(0, i as int),
        decreases leaves.len() - i,
    {
        layer.push(leaves[i]);
        i = i + 1;
    }
    assert(layer@ =~= leaves@);
    let mut len: usize = layer.len();
    let ghost mut d: nat = 0;
    proof {
        assert(dviews(layer@.subrange(0, len as int)) =~= layer_at(l, 0));
    }
    while len > 1
        invariant
            l.len() == leaves.len(),
            layer.len() == leaves.len(),
            len <= layer.len(),
            is_pow2(len as nat),
            log2(len as nat) + d == log2(l.len()),
            dviews(layer@.subrange(0, len as int)) == layer_at(l, d),
        decreases len,
    {
        let half = len / 2;
        let ghost prev = dviews(layer@.subrange(0, len as int));
        let mut node: usize = 0;
        while node < half
            invariant
                node <= half,
                half == len / 2,
                len <= layer.len(),
                layer.len() == leaves.len(),
                len % 2 == 0,
                prev.len() == len,
                forall|j: int| 0 <= j < node ==> #[trigger] layer@[j]@ == pair_layer(prev)[j],
                forall|j: int| node <= j < len ==> #[trigger] layer@[j]@ == prev[j],
            decreases half - node,
        {
            let parent = compress_pair(&layer[2 * node], &layer[2 * node + 1]);
            layer.set(node, parent);
            node = node + 1;
        }
        proof {
            assert(dviews(layer@.subrange(0, half as int)) =~= pair_layer(prev));
            d = d + 1;
        }
        len = half;
    }
    proof {
        assert(d == log2(l.len()));
        assert(dviews(layer@.subrange(0, 1))[0] == layer@[0]@);
    }
    layer[0]
}

/// The root over exactly sixteen leaves.
pub fn merkle_root_16(leaves: &Vec<Digest>) -> (r: Digest)
    requires
        leaves.len() == 16,
    ensures
        r@ == merkle_root(dviews(leaves@)),
{
    let ghost l = dviews(leaves@);
    let level_8 = next_layer(leaves);
    let level_4 = next_layer(&level_8);
    let level_2 = next_layer(&level_4);
    let level_1 = next_layer(&level_2);
    proof {
        assert(log2(16) == 4) by {
            reveal_with_fuel(log2, 5);
        }
        assert(layer_at(l, 4) == pair_layer(pair_layer(pair_layer(pair_layer(l))))) by {
            reveal_with_fuel(layer_at, 5);
        }
    }
    level_1[0]
}

/// Entry `t` of an authentication path is the sibling, in layer `d + t`,
/// of the node above `node` on that layer.
pub proof fn lemma_auth_path_entry(l: Seq<Seq<u32>>, d: nat, depth: nat, node: nat, t: nat)
    requires
        d + t < depth,
    ensures
        auth_path(l, d, depth, node)[t as int] == layer_at(l, d + t)[sibling(node / pow2(t)) as int],
    decreases t,
{
    crate::dbp_ext::lemma_auth_path_len(l, d + 1, depth, node / 2);
    assert(auth_path(l, d, depth, node) == seq![layer_at(l, d)[sibling(node) as int]] + auth_path(l, d + 1, depth, node / 2));
    if t > 0 {
        lemma_auth_path_entry(l, d + 1, depth, node / 2, (t - 1) as nat);
        crate::poly::lemma_pow2_pos((t - 1) as nat);
        vstd::arithmetic::div_mod::lemma_div_denominator(node as int, 2, pow2((t - 1) as nat) as int);
        assert(pow2(t) == 2 * pow2((t - 1) as nat));
    } else {
        assert(pow2(0) == 1);
    }
}

} // verus!
