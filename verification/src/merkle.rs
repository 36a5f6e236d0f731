//! Merkle trees over codewords of field elements, as the Basefold/FRI
//! commitments build them: the first layer hashes adjacent pairs of codeword
//! entries, every next layer hashes adjacent pairs of digests, up to the root.
use crate::hash::{
    digest_eq, hash_elements, hash_pair, spec_hash_elements, spec_hash_pair,
};
use crate::mersenne_61_mont::{views, Mersenne61Mont};
use crate::util::log2_strict;
use vstd::arithmetic::power2::{lemma_pow2_pos, lemma_pow2_unfold, pow2};
use vstd::prelude::*;

verus! {

/// The views of a layer of digests.
pub open spec fn dseq(l: Seq<[u8; 32]>) -> Seq<Seq<u8>> {
    l.map_values(|d: [u8; 32]| d@)
}

/// The views of a tree of digest layers.
pub open spec fn tree_view(t: Seq<Vec<[u8; 32]>>) -> Seq<Seq<Seq<u8>>> {
    t.map_values(|l: Vec<[u8; 32]>| dseq(l@))
}

/// The first layer: the digest of each adjacent pair of codeword entries.
pub open spec fn leaf_layer(v: Seq<int>) -> Seq<Seq<u8>> {
    Seq::new(v.len() / 2, |i: int| spec_hash_elements(v[2 * i], v[2 * i + 1]))
}

/// The layer above: the digest of each adjacent pair of digests.
pub open spec fn next_layer(l: Seq<Seq<u8>>) -> Seq<Seq<u8>> {
    Seq::new(l.len() / 2, |i: int| spec_hash_pair(l[2 * i], l[2 * i + 1]))
}

/// The `k`-th layer above `l0`.
pub open spec fn layer_at(l0: Seq<Seq<u8>>, k: nat) -> Seq<Seq<u8>>
    decreases k,
{
    if k == 0 {
        l0
    } else {
        next_layer(layer_at(l0, (k - 1) as nat))
    }
}

/// The Merkle tree of a codeword of length 2^n: its `max(n, 1)` layers.
pub open spec fn merkle_tree_of(v: Seq<int>, n: nat) -> Seq<Seq<Seq<u8>>> {
    let layers = if n == 0 { 1nat } else { n };
    Seq::new(layers, |k: int| layer_at(leaf_layer(v), k as nat))
}

/// The index of `x`'s ancestor in layer `i` of a tree over the codeword.
pub open spec fn level_index(x: int, i: int) -> int {
    x / pow2((i + 1) as nat) as int
}

/// The even member of the sibling pair holding `y`.
pub open spec fn pair_lo(y: int) -> int {
    y - y % 2
}

/// The odd member of the sibling pair holding `y`.
pub open spec fn pair_hi(y: int) -> int {
    y - y % 2 + 1
}

/// The path walk from `x` reads layer `i` only inside its bounds.
pub open spec fn path_in_bounds(t: Seq<Seq<Seq<u8>>>, x: int) -> bool {
    forall|i: int|
        0 <= i < t.len() && (forall|j: int| 0 <= j < i ==> #[trigger] t[j].len() != 1) ==> (
        #[trigger] t[i].len() == 1 || pair_hi(level_index(x, i)) < t[i].len())
}

/// `k` is where the path walk stops: the first layer of one digest, or the end.
pub open spec fn path_stop(t: Seq<Seq<Seq<u8>>>, k: int) -> bool {
    &&& 0 <= k <= t.len()
    &&& forall|j: int| 0 <= j < k ==> #[trigger] t[j].len() != 1
    &&& k < t.len() ==> t[k].len() == 1
}

/// The sibling pairs of the path from `x`, for the layers below `k`.
pub open spec fn path_pairs(t: Seq<Seq<Seq<u8>>>, x: int, k: int) -> Seq<(Seq<u8>, Seq<u8>)> {
    Seq::new(
        k as nat,
        |i: int| (t[i][pair_lo(level_index(x, i))], t[i][pair_hi(level_index(x, i))]),
    )
}

/// The views of a path of digest pairs.
pub open spec fn pairs_view(p: Seq<([u8; 32], [u8; 32])>) -> Seq<(Seq<u8>, Seq<u8>)> {
    p.map_values(|q: ([u8; 32], [u8; 32])| (q.0@, q.1@))
}

/// A path authenticates the pair of leaves at `x`: every digest it recomputes
/// is the one the path holds at the next level.
pub open spec fn path_chain_ok(path: Seq<(Seq<u8>, Seq<u8>)>, l0: int, l1: int, x: int) -> bool {
    &&& path.len() >= 1
    &&& spec_hash_elements(l0, l1) == (if level_index(x, 0) % 2 == 0 {
        path[0].0
    } else {
        path[0].1
    })
    &&& forall|i: int|
        0 <= i < path.len() - 1 ==> spec_hash_pair(#[trigger] path[i].0, path[i].1) == (if level_index(
            x,
            i + 1,
        ) % 2 == 0 {
            path[i + 1].0
        } else {
            path[i + 1].1
        })
}

/// The path authenticates the leaves and its last pair hashes to `root`.
pub open spec fn path_root_ok(
    path: Seq<(Seq<u8>, Seq<u8>)>,
    l0: int,
    l1: int,
    x: int,
    root: Seq<u8>,
) -> bool {
    &&& path_chain_ok(path, l0, l1, x)
    &&& spec_hash_pair(path[path.len() - 1].0, path[path.len() - 1].1) == root
}

/// `x ^ 1` is the sibling of `x`, and `x >> 1` its half.
pub proof fn lemma_xor_one(x: usize)
    ensures
        x % 2 == 0 ==> (x ^ 1) == x + 1,
        x % 2 == 1 ==> (x ^ 1) == x - 1,
        (x >> 1) == x / 2,
{
    assert(x % 2 == 0 ==> (x ^ 1) == x + 1) by (bit_vector);
    assert(x % 2 == 1 ==> (x ^ 1) == x - 1) by (bit_vector);
    assert((x >> 1) == x / 2) by (bit_vector);
}

/// `level_index(x, i + 1)` is half of `level_index(x, i)`.
pub proof fn lemma_level_index_step(x: int, i: int)
    requires
        x >= 0,
        i >= 0,
    ensures
        level_index(x, i + 1) == level_index(x, i) / 2,
        level_index(x, 0) == x / 2,
{
    lemma_pow2_pos((i + 1) as nat);
    lemma_pow2_unfold((i + 2) as nat);
    vstd::arithmetic::div_mod::lemma_div_denominator(x, pow2((i + 1) as nat) as int, 2);
    vstd::arithmetic::mul::lemma_mul_is_commutative(pow2((i + 1) as nat) as int, 2);
    lemma_pow2_unfold(1);
    vstd::arithmetic::power2::lemma2_to64();
}

/// The lengths of the layers above a layer of length 2^m.
proof fn lemma_layer_len(l0: Seq<Seq<u8>>, m: nat, k: nat)
    requires
        l0.len() == pow2(m),
        k <= m,
    ensures
        layer_at(l0, k).len() == pow2((m - k) as nat),
    decreases k,
{
    if k > 0 {
        lemma_layer_len(l0, m, (k - 1) as nat);
        lemma_pow2_unfold((m - k + 1) as nat);
    }
}

/// Builds the Merkle tree of a codeword whose length is a power of two.
pub fn merkelize(values: &Vec<Mersenne61Mont>) -> (tree: Vec<Vec<[u8; 32]>>)
    requires
        exists|n: nat| pow2(n) == values.len(),
    ensures
        forall|n: nat|
            pow2(n) == values.len() ==> tree_view(tree@) == merkle_tree_of(views(values@), n),
{
    let log_v = log2_strict(values.len());
    let ghost v = views(values@);
    let ghost l0 = leaf_layer(v);
    let mut tree: Vec<Vec<[u8; 32]>> = Vec::new();
    let half = values.len() / 2;
    let mut hashes: Vec<[u8; 32]> = Vec::new();
    for i in 0..half
        invariant
            half == values.len() / 2,
            v == views(values@),
            l0 == leaf_layer(v),
            hashes@.len() == i,
            l0.len() == half,
            dseq(hashes@) == l0.subrange(0, i as int),
    {
        let h = hash_elements(values[2 * i], values[2 * i + 1]);
        assert(v[2 * i] == values@[2 * i]@ && v[2 * i + 1] == values@[2 * i + 1]@);
        hashes.push(h);
        assert(dseq(hashes@)[i as int] == h@);
        assert(dseq(hashes@) =~= l0.subrange(0, i + 1));
    }
    assert(dseq(hashes@) =~= l0);
    tree.push(hashes);
    assert(tree_view(tree@) =~= Seq::new(1, |k: int| layer_at(l0, k as nat)));
    let mut i: usize = 1;
    while i < log_v
        invariant
            1 <= i,
            i <= log_v || log_v == 0,
            i == 1 || i <= log_v,
            tree@.len() == i,
            tree_view(tree@).len() == i,
            l0 == leaf_layer(v),
            tree_view(tree@) == Seq::new(i as nat, |k: int| layer_at(l0, k as nat)),
        decreases log_v - i,
    {
        let mut oracle: Vec<[u8; 32]> = Vec::new();
        let ghost lp = layer_at(l0, (i - 1) as nat);
        {
            let prev = &tree[i - 1];
            assert(dseq(prev@) == lp) by {
                assert(tree_view(tree@)[i - 1] == dseq(tree@[i - 1]@));
            }
            let plen = prev.len() / 2;
            for j in 0..plen
                invariant
                    plen == prev.len() / 2,
                    dseq(prev@) == lp,
                    oracle@.len() == j,
                    lp.len() == prev@.len(),
                    dseq(oracle@) == next_layer(lp).subrange(0, j as int),
            {
                let h = hash_pair(&prev[2 * j], &prev[2 * j + 1]);
                assert(lp[2 * j] == prev@[2 * j]@ && lp[2 * j + 1] == prev@[2 * j + 1]@);
                oracle.push(h);
                assert(dseq(oracle@)[j as int] == h@);
                assert(dseq(oracle@) =~= next_layer(lp).subrange(0, j + 1));
            }
            assert(dseq(oracle@) =~= next_layer(lp));
        }
        let ghost old_tree = tree@;
        assert(layer_at(l0, i as nat) == next_layer(layer_at(l0, (i - 1) as nat)));
        assert(dseq(oracle@) == layer_at(l0, i as nat));
        tree.push(oracle);
        assert(tree_view(tree@)[i as int] == dseq(oracle@));
        assert forall|k: int| 0 <= k < i + 1 implies tree_view(tree@)[k] == layer_at(l0, k as nat) by {
            if k < i {
                assert(tree@[k] == old_tree[k]);
                assert(tree_view(old_tree)[k] == Seq::new(i as nat, |k: int| layer_at(l0, k as nat))[k]);
            }
        }
        assert(tree_view(tree@) =~= Seq::new((i + 1) as nat, |k: int| layer_at(l0, k as nat)));
        i = i + 1;
    }
    proof {
        assert forall|n: nat| pow2(n) == values.len() implies tree_view(tree@) == merkle_tree_of(
            v,
            n,
        ) by {
            if n < log_v {
                vstd::arithmetic::power2::lemma_pow2_strictly_increases(n, log_v as nat);
            }
            if n > log_v {
                vstd::arithmetic::power2::lemma_pow2_strictly_increases(log_v as nat, n);
            }
            assert(n == log_v);
            assert(tree_view(tree@) =~= merkle_tree_of(v, n));
        }
    }
    tree
}

/// The sibling pairs on the path from codeword position `x_index` towards the
/// root, one per layer below the first layer holding a single digest; with
/// `root` set, that single digest is appended twice.
pub fn get_merkle_path(tree: &Vec<Vec<[u8; 32]>>, x_index: usize, root: bool) -> (r: Vec<
    ([u8; 32], [u8; 32]),
>)
    requires
        path_in_bounds(tree_view(tree@), x_index as int),
    ensures
        exists|k: int|
            #![trigger path_stop(tree_view(tree@), k)]
            path_stop(tree_view(tree@), k) && {
                let t = tree_view(tree@);
                if root && k < t.len() {
                    pairs_view(r@) == path_pairs(t, x_index as int, k) + seq![(t[k][0], t[k][0])]
                } else {
                    pairs_view(r@) == path_pairs(t, x_index as int, k)
                }
            },
{
    let ghost t = tree_view(tree@);
    let mut queries: Vec<([u8; 32], [u8; 32])> = Vec::new();
    proof {
        lemma_xor_one(x_index);
    }
    let mut x = x_index >> 1;
    proof {
        vstd::arithmetic::power2::lemma2_to64();
    }
    let mut i: usize = 0;
    while i < tree.len()
        invariant
            t == tree_view(tree@),
            path_in_bounds(t, x_index as int),
            i <= tree.len(),
            x == level_index(x_index as int, i as int),
            forall|j: int| 0 <= j < i ==> #[trigger] t[j].len() != 1,
            queries@.len() == i,
            pairs_view(queries@) == path_pairs(t, x_index as int, i as int),
        decreases tree.len() - i,
    {
        let oracle = &tree[i];
        assert(t[i as int] == dseq(oracle@));
        if oracle.len() == 1 {
            if root {
                queries.push((oracle[0], oracle[0]));
                assert(pairs_view(queries@) =~= path_pairs(t, x_index as int, i as int) + seq![
                    (t[i as int][0], t[i as int][0]),
                ]);
            }
            assert(path_stop(t, i as int));
            return queries;
        }
        proof {
            lemma_xor_one(x);
        }
        let mut p0 = x;
        let mut p1 = x ^ 1;
        if p1 < p0 {
            p0 = x ^ 1;
            p1 = x;
        }
        assert(p0 == pair_lo(x as int) && p1 == pair_hi(x as int));
        assert(t[i as int][p0 as int] == oracle@[p0 as int]@);
        assert(t[i as int][p1 as int] == oracle@[p1 as int]@);
        let ghost old_q = queries@;
        queries.push((oracle[p0], oracle[p1]));
        assert(pairs_view(queries@)[i as int] == (oracle@[p0 as int]@, oracle@[p1 as int]@));
        assert forall|k: int| 0 <= k < i implies pairs_view(queries@)[k] == pairs_view(old_q)[k] by {
            assert(queries@[k] == old_q[k]);
        }
        assert(path_pairs(t, x_index as int, i + 1)[i as int] == (t[i as int][p0 as int], t[i as int][p1 as int]));
        assert forall|k: int| 0 <= k < i + 1 implies pairs_view(queries@)[k] == path_pairs(t, x_index as int, i + 1)[k] by {
            if k < i {
                assert(pairs_view(old_q)[k] == path_pairs(t, x_index as int, i as int)[k]);
            }
        }
        assert(pairs_view(queries@) =~= path_pairs(t, x_index as int, i + 1));
        proof {
            lemma_xor_one(x);
            lemma_level_index_step(x_index as int, i as int);
        }
        x = x >> 1;
        i = i + 1;
    }
    assert(path_stop(t, i as int));
    queries
}

/// Checks a path from the pair of leaves at `x_index` up to its last pair,
/// without comparing against a root. The result is `true` exactly when every
/// recomputed digest matches.
pub fn authenticate_merkle_path(
    path: &Vec<([u8; 32], [u8; 32])>,
    leaves: (Mersenne61Mont, Mersenne61Mont),
    x_index: usize,
) -> (r: bool)
    requires
        path.len() >= 1,
    ensures
        r == path_chain_ok(pairs_view(path@), leaves.0@, leaves.1@, x_index as int),
{
    let ghost pv = pairs_view(path@);
    let hash = hash_elements(leaves.0, leaves.1);
    proof {
        lemma_xor_one(x_index);
        lemma_level_index_step(x_index as int, 0);
    }
    let mut x = x_index >> 1;
    assert(pv[0] == (path@[0].0@, path@[0].1@));
    let sel = if x % 2 == 0 {
        &path[0].0
    } else {
        &path[0].1
    };
    if !digest_eq(&hash, sel) {
        return false;
    }
    let mut i: usize = 0;
    while i + 1 < path.len()
        invariant
            pv == pairs_view(path@),
            path.len() >= 1,
            i + 1 <= path.len(),
            x == level_index(x_index as int, i as int),
            forall|j: int|
                0 <= j < i ==> spec_hash_pair(#[trigger] pv[j].0, pv[j].1) == (if level_index(
                    x_index as int,
                    j + 1,
                ) % 2 == 0 {
                    pv[j + 1].0
                } else {
                    pv[j + 1].1
                }),
        decreases path.len() - i,
    {
        let h = hash_pair(&path[i].0, &path[i].1);
        assert(pv[i as int] == (path@[i as int].0@, path@[i as int].1@));
        assert(pv[i + 1] == (path@[i + 1].0@, path@[i + 1].1@));
        proof {
            lemma_xor_one(x);
            lemma_level_index_step(x_index as int, i as int);
        }
        x = x >> 1;
        let sel = if x % 2 == 0 {
            &path[i + 1].0
        } else {
            &path[i + 1].1
        };
        assert(x == level_index(x_index as int, i + 1));
        if !digest_eq(&h, sel) {
            assert(!(spec_hash_pair(pv[i as int].0, pv[i as int].1) == (if level_index(x_index as int, i + 1) % 2 == 0 {
                pv[i + 1].0
            } else {
                pv[i + 1].1
            })));
            return false;
        }
        i = i + 1;
    }
    true
}

/// Checks a path from the pair of leaves at `x_index` all the way to `root`.
pub fn authenticate_merkle_path_root(
    path: &Vec<([u8; 32], [u8; 32])>,
    leaves: (Mersenne61Mont, Mersenne61Mont),
    x_index: usize,
    root: &[u8; 32],
) -> (r: bool)
    requires
        path.len() >= 1,
    ensures
        r == path_root_ok(pairs_view(path@), leaves.0@, leaves.1@, x_index as int, root@),
{
    if !authenticate_merkle_path(path, leaves, x_index) {
        return false;
    }
    let last = path.len() - 1;
    let h = hash_pair(&path[last].0, &path[last].1);
    assert(pairs_view(path@)[last as int] == (path@[last as int].0@, path@[last as int].1@));
    digest_eq(&h, root)
}

/// The pair of codeword entries holding position `query`, with the Merkle path
/// (including the root) from that pair.
pub fn query_codeword(
    query: usize,
    codeword: &Vec<Mersenne61Mont>,
    codeword_tree: &Vec<Vec<[u8; 32]>>,
) -> (r: ((Mersenne61Mont, Mersenne61Mont), Vec<([u8; 32], [u8; 32])>))
    requires
        pair_hi(query as int) < codeword.len(),
        path_in_bounds(tree_view(codeword_tree@), query as int),
    ensures
        r.0.0 == codeword@[pair_lo(query as int)],
        r.0.1 == codeword@[pair_hi(query as int)],
        exists|k: int|
            #![trigger path_stop(tree_view(codeword_tree@), k)]
            path_stop(tree_view(codeword_tree@), k) && {
                let t = tree_view(codeword_tree@);
                if k < t.len() {
                    pairs_view(r.1@) == path_pairs(t, query as int, k) + seq![(t[k][0], t[k][0])]
                } else {
                    pairs_view(r.1@) == path_pairs(t, query as int, k)
                }
            },
{
    proof {
        lemma_xor_one(query);
    }
    let mut p0 = query;
    let temp = p0;
    let mut p1 = p0 ^ 1;
    if p1 < p0 {
        p0 = p1;
        p1 = temp;
    }
    ((codeword[p0], codeword[p1]), get_merkle_path(codeword_tree, query, true))
}

/// The ancestor index of a codeword position stays inside its layer.
proof fn lemma_level_index_bound(x: int, n: nat, i: nat)
    requires
        0 <= x < pow2(n),
        i + 1 <= n,
    ensures
        0 <= level_index(x, i as int) < pow2((n - 1 - i) as nat),
{
    lemma_pow2_pos((i + 1) as nat);
    vstd::arithmetic::power2::lemma_pow2_adds((i + 1) as nat, (n - 1 - i) as nat);
    vstd::arithmetic::div_mod::lemma_multiply_divide_lt(
        x,
        pow2((i + 1) as nat) as int,
        pow2((n - 1 - i) as nat) as int,
    );
    vstd::arithmetic::div_mod::lemma_div_pos_is_pos(x, pow2((i + 1) as nat) as int);
}

/// A sibling pair of an index inside a layer of even length stays inside it.
proof fn lemma_pair_in_layer(y: int, m: nat)
    requires
        0 <= y < pow2(m),
        m >= 1,
    ensures
        0 <= pair_lo(y) <= y <= pair_hi(y) < pow2(m),
{
    lemma_pow2_unfold(m);
}

/// Completeness of Merkle openings: in the tree that `merkelize` builds over a
/// codeword of length 2^n (n >= 2), the path that `get_merkle_path` reads for
/// any position authenticates that position's pair of entries up to the root,
/// as `authenticate_merkle_path_root` checks it.
pub proof fn lemma_merkle_path_complete(v: Seq<int>, n: nat, x: int)
    requires
        v.len() == pow2(n),
        n >= 2,
        0 <= x < v.len(),
    ensures
        path_in_bounds(merkle_tree_of(v, n), x),
        path_stop(merkle_tree_of(v, n), n - 1),
        path_root_ok(
            path_pairs(merkle_tree_of(v, n), x, n - 1),
            v[pair_lo(x)],
            v[pair_hi(x)],
            x,
            merkle_tree_of(v, n)[n - 1][0],
        ),
{
    let t = merkle_tree_of(v, n);
    let l0 = leaf_layer(v);
    lemma_pow2_unfold(n);
    assert(l0.len() == pow2((n - 1) as nat));
    assert forall|k: int| 0 <= k < n implies #[trigger] t[k].len() == pow2((n - 1 - k) as nat) by {
        lemma_layer_len(l0, (n - 1) as nat, k as nat);
    }
    assert forall|k: int| 0 <= k < n - 1 implies #[trigger] t[k].len() != 1 by {
        vstd::arithmetic::power2::lemma2_to64();
        vstd::arithmetic::power2::lemma_pow2_strictly_increases(0, (n - 1 - k) as nat);
    }
    vstd::arithmetic::power2::lemma2_to64();
    assert(t[n - 1].len() == 1);
    assert(path_stop(t, n - 1));
    assert forall|i: int|
        0 <= i < t.len() && (forall|j: int| 0 <= j < i ==> #[trigger] t[j].len() != 1) implies (
        #[trigger] t[i].len() == 1 || pair_hi(level_index(x, i)) < t[i].len()) by {
        if i < n - 1 {
            lemma_level_index_bound(x, n, i as nat);
            lemma_pair_in_layer(level_index(x, i), (n - 1 - i) as nat);
        }
    }
    let path = path_pairs(t, x, n - 1);
    // The first pair holds the digest of the two leaves.
    lemma_level_index_step(x, 0);
    lemma_level_index_bound(x, n, 0);
    let y0 = level_index(x, 0);
    assert(pair_lo(x) == 2 * y0 && pair_hi(x) == 2 * y0 + 1);
    assert(t[0] == l0);
    assert(l0[y0] == spec_hash_elements(v[2 * y0], v[2 * y0 + 1]));
    lemma_pair_in_layer(y0, (n - 1) as nat);
    assert(spec_hash_elements(v[pair_lo(x)], v[pair_hi(x)]) == (if level_index(x, 0) % 2 == 0 {
        path[0].0
    } else {
        path[0].1
    }));
    // Each pair hashes to the ancestor digest held by the next pair.
    assert forall|i: int| 0 <= i < path.len() - 1 implies spec_hash_pair(
        #[trigger] path[i].0,
        path[i].1,
    ) == (if level_index(x, i + 1) % 2 == 0 {
        path[i + 1].0
    } else {
        path[i + 1].1
    }) by {
        let y = level_index(x, i);
        lemma_level_index_step(x, i);
        lemma_level_index_bound(x, n, i as nat);
        lemma_level_index_bound(x, n, (i + 1) as nat);
        lemma_pair_in_layer(y, (n - 1 - i) as nat);
        lemma_pair_in_layer(y / 2, (n - 2 - i) as nat);
        assert(t[i + 1] == next_layer(t[i]));
        assert(pair_lo(y) == 2 * (y / 2));
        assert(next_layer(t[i])[y / 2] == spec_hash_pair(t[i][2 * (y / 2)], t[i][2 * (y / 2) + 1]));
    }
    // The last pair hashes to the root.
    let last = n - 2;
    let y = level_index(x, last);
    lemma_level_index_bound(x, n, last as nat);
    lemma_level_index_step(x, last);
    assert(y < 2);
    assert(t[n - 1] == next_layer(t[last]));
    assert(next_layer(t[last])[0] == spec_hash_pair(t[last][0], t[last][1]));
    assert(pair_lo(y) == 0 && pair_hi(y) == 1);
    assert(path_chain_ok(path, v[pair_lo(x)], v[pair_hi(x)], x));
}

} // verus!
