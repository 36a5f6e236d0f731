//! Merkle trees over byte leaves, as the Deepfold and Virgo commitments build
//! them: the first layer holds the digest of every leaf, every next layer the
//! digest of each adjacent pair, and an opening of several leaves lists, leaf
//! after leaf, the sibling digest at every layer below the root.
use crate::hash::{digest_eq, hash_bytes, hash_pair, spec_hash_pair, spec_sha256};
use crate::merkle::{dseq, layer_at, lemma_xor_one, next_layer, tree_view};
use crate::util::{is_power_of_two, log2_strict};
use vstd::arithmetic::power2::{lemma2_to64, lemma_pow2_pos, lemma_pow2_unfold, pow2};
use vstd::prelude::*;

verus! {

/// The digests of the leaves.
pub open spec fn leaf_digests(leaves: Seq<Seq<u8>>) -> Seq<Seq<u8>> {
    leaves.map_values(|l: Seq<u8>| spec_sha256(l))
}

/// The `n + 1` layers of the tree over `2^n` leaves; the last one holds the root.
pub open spec fn byte_tree(leaves: Seq<Seq<u8>>, n: nat) -> Seq<Seq<Seq<u8>>> {
    Seq::new(n + 1, |k: int| layer_at(leaf_digests(leaves), k as nat))
}

/// The other member of the pair holding index `y`.
pub open spec fn sibling(y: int) -> int {
    if y % 2 == 0 {
        y + 1
    } else {
        y - 1
    }
}

/// The bytes of the sibling digests on the path from leaf `j`, for the first
/// `k` layers.
pub open spec fn sibling_path(t: Seq<Seq<Seq<u8>>>, j: int, k: nat) -> Seq<u8>
    decreases k,
{
    if k == 0 {
        Seq::empty()
    } else {
        sibling_path(t, j, (k - 1) as nat) + t[k - 1][sibling(j / pow2((k - 1) as nat) as int)]
    }
}

/// The opening of several leaves: their sibling paths below the root, one
/// after the other.
pub open spec fn opening(t: Seq<Seq<Seq<u8>>>, idx: Seq<usize>) -> Seq<u8>
    decreases idx.len(),
{
    if idx.len() == 0 {
        Seq::empty()
    } else {
        opening(t, idx.drop_last()) + sibling_path(t, idx.last() as int, (t.len() - 1) as nat)
    }
}

/// The digest reached from digest `d` of leaf `j` after `k` layers, taking the
/// sibling digests 32 bytes at a time from `sibs`.
pub open spec fn climb(d: Seq<u8>, j: int, sibs: Seq<u8>, k: nat) -> Seq<u8>
    decreases k,
{
    if k == 0 {
        d
    } else {
        let a = climb(d, j, sibs, (k - 1) as nat);
        let s = sibs.subrange(32 * (k - 1), 32 * k as int);
        if (j / pow2((k - 1) as nat) as int) % 2 == 0 {
            spec_hash_pair(a, s)
        } else {
            spec_hash_pair(s, a)
        }
    }
}

/// An opening of the leaves at `idx` authenticates against `root` in a tree
/// of depth `depth`: it has one path per leaf, and every path climbs to the root.
pub open spec fn opening_ok(
    root: Seq<u8>,
    depth: nat,
    idx: Seq<usize>,
    leaves: Seq<Seq<u8>>,
    proof: Seq<u8>,
) -> bool {
    &&& proof.len() == idx.len() * (depth * 32)
    &&& forall|t: int|
        0 <= t < idx.len() ==> #[trigger] climb(
            spec_sha256(leaves[t]),
            idx[t] as int,
            proof.subrange(t * (depth * 32), (t + 1) * (depth * 32)),
            depth,
        ) == root
}

/// The views of byte leaves.
pub open spec fn bytes_view(v: Seq<Vec<u8>>) -> Seq<Seq<u8>> {
    v.map_values(|l: Vec<u8>| l@)
}

/// The prover's side of a Merkle tree over byte leaves.
#[derive(Clone)]
pub struct MerkleTreeProver {
    layers: Vec<Vec<[u8; 32]>>,
}

impl MerkleTreeProver {
    /// The layers of digests, leaves first.
    pub closed spec fn tree(&self) -> Seq<Seq<Seq<u8>>> {
        tree_view(self.layers@)
    }

    /// The number of layers below the root.
    pub open spec fn depth(&self) -> nat {
        (self.tree().len() - 1) as nat
    }

    /// The tree is the one built over some leaves.
    pub open spec fn wf(&self) -> bool {
        exists|leaves: Seq<Seq<u8>>|
            leaves.len() == pow2(self.depth()) && #[trigger] byte_tree(leaves, self.depth())
                == self.tree()
    }

    /// Builds the tree over leaves whose number is a power of two.
    pub fn new(leaf_values: Vec<Vec<u8>>) -> (r: Self)
        requires
            is_power_of_two(leaf_values.len() as int),
        ensures
            pow2(r.depth()) == leaf_values.len(),
            r.tree() == byte_tree(bytes_view(leaf_values@), r.depth()),
            r.wf(),
    {
        let n = log2_strict(leaf_values.len());
        let ghost leaves = bytes_view(leaf_values@);
        let ghost l0 = leaf_digests(leaves);
        let mut first: Vec<[u8; 32]> = Vec::new();
        for i in 0..leaf_values.len()
            invariant
                leaves == bytes_view(leaf_values@),
                l0 == leaf_digests(leaves),
                dseq(first@) == l0.subrange(0, i as int),
        {
            let d = hash_bytes(&leaf_values[i]);
            let ghost before = dseq(first@);
            first.push(d);
            assert(dseq(first@) =~= before.push(d@));
            assert(dseq(first@) =~= l0.subrange(0, i + 1));
        }
        assert(dseq(first@) =~= l0);
        let mut layers: Vec<Vec<[u8; 32]>> = Vec::new();
        layers.push(first);
        assert(tree_view(layers@) =~= Seq::new(1, |k: int| layer_at(l0, k as nat)));
        let mut k: usize = 0;
        while k < n
            invariant
                k <= n,
                n < 64,
                pow2(n as nat) == leaf_values.len(),
                layers@.len() == k + 1,
                l0 == leaf_digests(leaves),
                l0.len() == leaf_values.len(),
                tree_view(layers@) == Seq::new((k + 1) as nat, |m: int| layer_at(l0, m as nat)),
            decreases n - k,
        {
            let ghost lp = layer_at(l0, k as nat);
            let mut next: Vec<[u8; 32]> = Vec::new();
            {
                let prev = &layers[k];
                assert(dseq(prev@) == lp) by {
                    assert(tree_view(layers@)[k as int] == dseq(layers@[k as int]@));
                }
                let plen = prev.len() / 2;
                for j in 0..plen
                    invariant
                        plen == prev.len() / 2,
                        dseq(prev@) == lp,
                        lp.len() == prev@.len(),
                        dseq(next@) == next_layer(lp).subrange(0, j as int),
                {
                    let h = hash_pair(&prev[2 * j], &prev[2 * j + 1]);
                    assert(lp[2 * j] == prev@[2 * j]@ && lp[2 * j + 1] == prev@[2 * j + 1]@);
                    let ghost before = dseq(next@);
                    next.push(h);
                    assert(dseq(next@) =~= before.push(h@));
                    assert(dseq(next@) =~= next_layer(lp).subrange(0, j + 1));
                }
                assert(dseq(next@) =~= next_layer(lp));
            }
            let ghost old_layers = layers@;
            layers.push(next);
            assert forall|m: int| 0 <= m < k + 2 implies tree_view(layers@)[m] == layer_at(
                l0,
                m as nat,
            ) by {
                if m < k + 1 {
                    assert(layers@[m] == old_layers[m]);
                    assert(tree_view(old_layers)[m] == Seq::new(
                        (k + 1) as nat,
                        |m: int| layer_at(l0, m as nat),
                    )[m]);
                }
            }
            assert(tree_view(layers@) =~= Seq::new((k + 2) as nat, |m: int| layer_at(l0, m as nat)));
            k = k + 1;
        }
        let r = MerkleTreeProver { layers };
        assert(r.tree() =~= byte_tree(leaves, n as nat));
        assert(r.depth() == n);
        r
    }

    /// The number of leaves.
    pub fn leave_num(&self) -> (r: usize)
        requires
            self.wf(),
        ensures
            r == pow2(self.depth()),
    {
        proof {
            self.lemma_layer_lens();
        }
        assert(self.tree()[0].len() == self.layers@[0]@.len());
        self.layers[0].len()
    }

    /// The root digest.
    pub fn commit(&self) -> (r: [u8; 32])
        requires
            self.wf(),
        ensures
            r@ == self.tree()[self.depth() as int][0],
    {
        proof {
            self.lemma_layer_lens();
            assert(pow2(0) == 1) by {
                lemma2_to64();
            }
        }
        let last = self.layers.len() - 1;
        assert(self.tree()[last as int] == dseq(self.layers@[last as int]@));
        self.layers[last][0]
    }

    /// The layer lengths of a tree built over leaves.
    proof fn lemma_layer_lens(&self)
        requires
            self.wf(),
        ensures
            self.tree().len() >= 1,
            forall|k: int|
                0 <= k < self.tree().len() ==> #[trigger] self.tree()[k].len() == pow2(
                    (self.depth() - k) as nat,
                ),
    {
        let n = self.depth();
        let leaves = choose|leaves: Seq<Seq<u8>>|
            leaves.len() == pow2(n) && #[trigger] byte_tree(leaves, n) == self.tree();
        assert(byte_tree(leaves, n) == self.tree());
        assert forall|k: int| 0 <= k < self.tree().len() implies #[trigger] self.tree()[k].len()
            == pow2((n - k) as nat) by {
            lemma_layer_len(leaf_digests(leaves), n, k as nat);
        }
    }

    /// The opening of the leaves at `leaf_indices`.
    pub fn open(&self, leaf_indices: &Vec<usize>) -> (r: Vec<u8>)
        requires
            self.wf(),
            forall|t: int| 0 <= t < leaf_indices.len() ==> #[trigger] leaf_indices@[t] < pow2(self.depth()),
        ensures
            r@ == opening(self.tree(), leaf_indices@),
    {
        proof {
            self.lemma_layer_lens();
            lemma2_to64();
        }
        let ghost t = self.tree();
        let depth = self.layers.len() - 1;
        let mut out: Vec<u8> = Vec::new();
        let mut q: usize = 0;
        while q < leaf_indices.len()
            invariant
                t == self.tree(),
                depth == t.len() - 1,
                depth == self.depth(),
                self.wf(),
                t.len() >= 1,
                forall|k: int| 0 <= k < t.len() ==> #[trigger] t[k].len() == pow2((depth - k) as nat),
                forall|s: int| 0 <= s < leaf_indices.len() ==> #[trigger] leaf_indices@[s] < pow2(depth as nat),
                q <= leaf_indices.len(),
                out@ == opening(t, leaf_indices@.subrange(0, q as int)),
            decreases leaf_indices.len() - q,
        {
            let j = leaf_indices[q];
            let ghost base = out@;
            let mut y = j;
            let mut k: usize = 0;
            proof {
                lemma2_to64();
            }
            while k < depth
                invariant
                    t == self.tree(),
                    depth == t.len() - 1,
                    forall|m: int| 0 <= m < t.len() ==> #[trigger] t[m].len() == pow2((depth - m) as nat),
                    j < pow2(depth as nat),
                    k <= depth,
                    y == j as int / pow2(k as nat) as int,
                    out@ == base + sibling_path(t, j as int, k as nat),
                decreases depth - k,
            {
                proof {
                    lemma_xor_one(y);
                    lemma_pow2_pos(k as nat);
                    lemma_index_bound(j as int, depth as nat, k as nat);
                    lemma_pow2_unfold((depth - k) as nat);
                }
                let s = y ^ 1;
                assert(s == sibling(y as int));
                assert(t[k as int] == dseq(self.layers@[k as int]@));
                assert(dseq(self.layers@[k as int]@).len() == self.layers@[k as int]@.len());
                let d = self.layers[k][s];
                let mut b: usize = 0;
                let ghost before = out@;
                while b < 32
                    invariant
                        b <= 32,
                        out@ == before + d@.subrange(0, b as int),
                    decreases 32 - b,
                {
                    out.push(d[b]);
                    assert(out@ =~= before + d@.subrange(0, b + 1));
                    b = b + 1;
                }
                assert(d@.subrange(0, 32) =~= d@);
                assert(out@ =~= base + sibling_path(t, j as int, (k + 1) as nat));
                proof {
                    vstd::arithmetic::div_mod::lemma_div_denominator(
                        j as int,
                        pow2(k as nat) as int,
                        2,
                    );
                    lemma_pow2_unfold((k + 1) as nat);
                    vstd::arithmetic::mul::lemma_mul_is_commutative(pow2(k as nat) as int, 2);
                }
                y = y >> 1;
                k = k + 1;
            }
            let ghost pre = leaf_indices@.subrange(0, q as int);
            let ghost post = leaf_indices@.subrange(0, q + 1);
            assert(post.drop_last() =~= pre);
            assert(post.last() == j);
            q = q + 1;
        }
        assert(leaf_indices@.subrange(0, leaf_indices.len() as int) =~= leaf_indices@);
        out
    }
}

/// The lengths of the layers above a layer of length 2^m.
proof fn lemma_layer_len(l0: Seq<Seq<u8>>, m: nat, k: nat)
    requires
        l0.len() == pow2(m),
        k <= m,
    ensures
        layer_at(l0, k).len() == pow2((m - k) as nat),
    decreases k,
{
    if k > 0 {
        lemma_layer_len(l0, m, (k - 1) as nat);
        lemma_pow2_unfold((m - k + 1) as nat);
    }
}

/// The ancestor of leaf `j` at layer `k` and its sibling stay inside the layer.
proof fn lemma_index_bound(j: int, n: nat, k: nat)
    requires
        0 <= j < pow2(n),
        k < n,
    ensures
        0 <= j / pow2(k) as int,
        sibling(j / pow2(k) as int) < pow2((n - k) as nat),
        0 <= sibling(j / pow2(k) as int),
{
    lemma_pow2_pos(k);
    vstd::arithmetic::power2::lemma_pow2_adds(k, (n - k) as nat);
    vstd::arithmetic::div_mod::lemma_multiply_divide_lt(j, pow2(k) as int, pow2((n - k) as nat) as int);
    vstd::arithmetic::div_mod::lemma_div_pos_is_pos(j, pow2(k) as int);
    lemma_pow2_unfold((n - k) as nat);
}

/// Every digest of the tree has 32 bytes.
proof fn lemma_digest_lens(p: MerkleTreeProver)
    ensures
        forall|k: int, i: int|
            0 <= k < p.tree().len() && 0 <= i < p.tree()[k].len() ==> (#[trigger] p.tree()[k][i]).len() == 32,
{
    assert forall|k: int, i: int| 0 <= k < p.tree().len() && 0 <= i < p.tree()[k].len() implies (
    #[trigger] p.tree()[k][i]).len() == 32 by {
        assert(p.tree()[k] == dseq(p.layers@[k]@));
        assert(p.tree()[k][i] == p.layers@[k]@[i]@);
    }
}

/// The path of a leaf has 32 bytes per layer, and its segment for layer `m`
/// is the sibling digest there.
proof fn lemma_sibling_path_segments(t: Seq<Seq<Seq<u8>>>, j: int, n: nat, k: nat)
    requires
        t.len() == n + 1,
        0 <= j < pow2(n),
        k <= n,
        forall|m: int| 0 <= m < t.len() ==> #[trigger] t[m].len() == pow2((n - m) as nat),
        forall|m: int, i: int| 0 <= m < t.len() && 0 <= i < t[m].len() ==> (#[trigger] t[m][i]).len() == 32,
    ensures
        sibling_path(t, j, k).len() == 32 * k,
        forall|m: int|
            0 <= m < k ==> #[trigger] sibling_path(t, j, k).subrange(32 * m, 32 * m + 32) == t[m][sibling(
                j / pow2(m as nat) as int,
            )],
    decreases k,
{
    if k > 0 {
        lemma_sibling_path_segments(t, j, n, (k - 1) as nat);
        let km = (k - 1) as int;
        lemma_index_bound(j, n, km as nat);
        let prev = sibling_path(t, j, (k - 1) as nat);
        let d = t[km][sibling(j / pow2(km as nat) as int)];
        assert forall|m: int| 0 <= m < k implies #[trigger] sibling_path(t, j, k).subrange(32 * m, 32 * m + 32)
            == t[m][sibling(j / pow2(m as nat) as int)] by {
            if m < km {
                assert(sibling_path(t, j, k).subrange(32 * m, 32 * m + 32) =~= prev.subrange(32 * m, 32 * m + 32));
            } else {
                assert(sibling_path(t, j, k).subrange(32 * m, 32 * m + 32) =~= d);
            }
        }
    }
}

/// Climbing from the digest of leaf `j` with its path reaches its ancestor
/// at layer `k`.
proof fn lemma_climb_path(leaves: Seq<Seq<u8>>, t: Seq<Seq<Seq<u8>>>, j: int, n: nat, k: nat)
    requires
        leaves.len() == pow2(n),
        t == byte_tree(leaves, n),
        0 <= j < pow2(n),
        k <= n,
        forall|m: int, i: int| 0 <= m < t.len() && 0 <= i < t[m].len() ==> (#[trigger] t[m][i]).len() == 32,
    ensures
        climb(spec_sha256(leaves[j]), j, sibling_path(t, j, n), k) == t[k as int][j / pow2(k) as int],
    decreases k,
{
    assert forall|m: int| 0 <= m < t.len() implies #[trigger] t[m].len() == pow2((n - m) as nat) by {
        lemma_layer_len(leaf_digests(leaves), n, m as nat);
    }
    lemma2_to64();
    if k > 0 {
        let km = (k - 1) as nat;
        lemma_climb_path(leaves, t, j, n, km);
        lemma_sibling_path_segments(t, j, n, n);
        lemma_index_bound(j, n, km);
        lemma_pow2_pos(km);
        let y = j / pow2(km) as int;
        let m: int = km as int;
        assert(sibling_path(t, j, n).subrange(32 * m, 32 * m + 32) == t[m][sibling(y)]);
        assert(sibling_path(t, j, n).subrange(32 * (k - 1), 32 * k as int) == t[m][sibling(y)]);
        vstd::arithmetic::div_mod::lemma_div_denominator(j, pow2(km) as int, 2);
        lemma_pow2_unfold(k);
        vstd::arithmetic::mul::lemma_mul_is_commutative(pow2(km) as int, 2);
        assert(j / pow2(k) as int == y / 2);
        assert(t[k as int] == next_layer(t[km as int]));
        lemma_pow2_unfold((n - km) as nat);
        if y % 2 == 0 {
            assert(2 * (y / 2) == y);
        } else {
            assert(2 * (y / 2) == y - 1);
        }
    } else {
        assert(t[0] == leaf_digests(leaves));
    }
}

/// An opening of several leaves is their paths, one after the other.
proof fn lemma_opening_segments(t: Seq<Seq<Seq<u8>>>, idx: Seq<usize>, n: nat)
    requires
        t.len() == n + 1,
        forall|m: int| 0 <= m < t.len() ==> #[trigger] t[m].len() == pow2((n - m) as nat),
        forall|m: int, i: int| 0 <= m < t.len() && 0 <= i < t[m].len() ==> (#[trigger] t[m][i]).len() == 32,
        forall|q: int| 0 <= q < idx.len() ==> #[trigger] idx[q] < pow2(n),
    ensures
        opening(t, idx).len() == idx.len() * (n * 32),
        forall|q: int|
            0 <= q < idx.len() ==> #[trigger] opening(t, idx).subrange(q * (n * 32), (q + 1) * (n * 32))
                == sibling_path(t, idx[q] as int, n),
    decreases idx.len(),
{
    if idx.len() > 0 {
        let pre = idx.drop_last();
        lemma_opening_segments(t, pre, n);
        lemma_sibling_path_segments(t, idx.last() as int, n, n);
        let seg = n * 32;
        let head = opening(t, pre);
        assert(opening(t, idx) == head + sibling_path(t, idx.last() as int, n));
        vstd::arithmetic::mul::lemma_mul_is_distributive_add_other_way(seg as int, pre.len() as int, 1);
        let il = idx.len() as int;
        let pl = pre.len() as int;
        assert(il * (n * 32) == pl * (n * 32) + n * 32) by (nonlinear_arith)
            requires
                il == pl + 1,
        ;
        assert forall|q: int| 0 <= q < idx.len() implies #[trigger] opening(t, idx).subrange(q * seg, (q + 1) * seg)
            == sibling_path(t, idx[q] as int, n) by {
            vstd::arithmetic::mul::lemma_mul_is_distributive_add_other_way(seg as int, q, 1);
            if q < pre.len() {
                vstd::arithmetic::mul::lemma_mul_inequality(q + 1, pre.len() as int, seg as int);
                vstd::arithmetic::mul::lemma_mul_nonnegative(q, seg as int);
                assert(opening(t, idx).subrange(q * seg, (q + 1) * seg) =~= head.subrange(q * seg, (q + 1) * seg));
            } else {
                assert(opening(t, idx).subrange(q * seg, (q + 1) * seg) =~= sibling_path(t, idx.last() as int, n));
            }
        }
        assert(opening(t, idx).len() == head.len() + sibling_path(t, idx.last() as int, n).len());
        assert(head.len() == pl * (n * 32));
        assert(sibling_path(t, idx.last() as int, n).len() == n * 32);
    } else {
        let il = idx.len() as int;
        assert(il * (n * 32) == 0) by (nonlinear_arith)
            requires
                il == 0,
        ;
    }
}

/// Completeness of openings: the opening that `open` gives of the leaves at
/// `idx` of a tree built over `leaves` authenticates those leaves against
/// the tree's root, as `MerkleTreeVerifier::verify` checks it.
pub proof fn lemma_opening_complete(p: MerkleTreeProver, leaves: Seq<Seq<u8>>, idx: Seq<usize>)
    requires
        leaves.len() == pow2(p.depth()),
        byte_tree(leaves, p.depth()) == p.tree(),
        forall|q: int| 0 <= q < idx.len() ==> #[trigger] idx[q] < pow2(p.depth()),
    ensures
        opening_ok(
            p.tree()[p.depth() as int][0],
            p.depth(),
            idx,
            Seq::new(idx.len(), |q: int| leaves[idx[q] as int]),
            opening(p.tree(), idx),
        ),
{
    let n = p.depth();
    let t = p.tree();
    lemma_digest_lens(p);
    assert forall|m: int| 0 <= m < t.len() implies #[trigger] t[m].len() == pow2((n - m) as nat) by {
        lemma_layer_len(leaf_digests(leaves), n, m as nat);
    }
    lemma_opening_segments(t, idx, n);
    let ls = Seq::new(idx.len(), |q: int| leaves[idx[q] as int]);
    assert forall|q: int| 0 <= q < idx.len() implies #[trigger] climb(
        spec_sha256(ls[q]),
        idx[q] as int,
        opening(t, idx).subrange(q * (n * 32), (q + 1) * (n * 32)),
        n,
    ) == t[n as int][0] by {
        let j = idx[q] as int;
        lemma_climb_path(leaves, t, j, n, n);
        vstd::arithmetic::div_mod::lemma_basic_div(j, pow2(n) as int);
    }
}

/// The verifier's side of a Merkle tree: the root and the number of leaves.
#[derive(Clone, Debug)]
pub struct MerkleTreeVerifier {
    pub merkle_root: [u8; 32],
    pub leave_number: usize,
}

impl MerkleTreeVerifier {
    /// The verifier for a tree with `leave_number` leaves and root `merkle_root`.
    pub fn new(leave_number: usize, merkle_root: &[u8; 32]) -> (r: Self)
        ensures
            r.leave_number == leave_number,
            r.merkle_root@ == merkle_root@,
    {
        MerkleTreeVerifier { merkle_root: *merkle_root, leave_number }
    }

    /// Checks an opening of the leaves at `leaf_indices`, whose contents are `leaves`.
    pub fn verify(&self, proof: &Vec<u8>, leaf_indices: &Vec<usize>, leaves: &Vec<Vec<u8>>) -> (r:
        bool)
        requires
            is_power_of_two(self.leave_number as int),
            leaves.len() == leaf_indices.len(),
        ensures
            r == opening_ok(
                self.merkle_root@,
                log2_of(self.leave_number as int),
                leaf_indices@,
                bytes_view(leaves@),
                proof@,
            ),
    {
        let depth = log2_strict(self.leave_number);
        proof {
            lemma_log2_of(self.leave_number as int, depth as nat);
        }
        let ghost lv = bytes_view(leaves@);
        let seg = depth * 32;
        let total = leaf_indices.len();
        let plen = proof.len();
        match total.checked_mul(seg) {
            None => {
                return false;
            },
            Some(expected) => {
                if proof.len() != expected {
                    return false;
                }
            },
        }
        assert(proof@.len() == total * seg);
        let mut q: usize = 0;
        while q < total
            invariant
                total == leaf_indices.len(),
                total == leaves.len(),
                seg == depth * 32,
                depth < 64,
                log2_of(self.leave_number as int) == depth as nat,
                plen == proof@.len(),
                proof@.len() == total * seg,
                lv == bytes_view(leaves@),
                q <= total,
                forall|t: int|
                    0 <= t < q ==> #[trigger] climb(
                        spec_sha256(lv[t]),
                        leaf_indices@[t] as int,
                        proof@.subrange(t * seg, (t + 1) * seg),
                        depth as nat,
                    ) == self.merkle_root@,
            decreases total - q,
        {
            proof {
                vstd::arithmetic::mul::lemma_mul_inequality(q as int + 1, total as int, seg as int);
                vstd::arithmetic::mul::lemma_mul_is_distributive_add_other_way(seg as int, q as int, 1);
                assert((q + 1) * seg == q * seg + seg);
                assert(q * seg + seg <= total * seg);
            }
            let off = q * seg;
            let j = leaf_indices[q];
            let ghost sibs = proof@.subrange(q * seg, (q + 1) * seg);
            let mut acc = hash_bytes(&leaves[q]);
            let mut y = j;
            let mut k: usize = 0;
            proof {
                lemma2_to64();
            }
            while k < depth
                invariant
                    k <= depth,
                    depth < 64,
                    seg == depth * 32,
                    off + seg <= proof@.len(),
                    plen == proof@.len(),
                    sibs == proof@.subrange(off as int, off + seg),
                    y == j as int / pow2(k as nat) as int,
                    acc@ == climb(spec_sha256(lv[q as int]), j as int, sibs, k as nat),
                    lv == bytes_view(leaves@),
                    q < leaves.len(),
                decreases depth - k,
            {
                let mut s = [0u8; 32];
                let mut b: usize = 0;
                let start = off + 32 * k;
                while b < 32
                    invariant
                        b <= 32,
                        k < depth,
                        start == off + 32 * k,
                        off + seg <= proof@.len(),
                        plen == proof@.len(),
                        seg == depth * 32,
                        forall|c: int| 0 <= c < b ==> s@[c] == proof@[start + c],
                    decreases 32 - b,
                {
                    s[b] = proof[start + b];
                    b = b + 1;
                }
                assert(s@ =~= sibs.subrange(32 * k, 32 * (k + 1)));
                proof {
                    lemma_xor_one(y);
                    lemma_pow2_pos(k as nat);
                }
                if y % 2 == 0 {
                    acc = hash_pair(&acc, &s);
                } else {
                    acc = hash_pair(&s, &acc);
                }
                proof {
                    vstd::arithmetic::div_mod::lemma_div_denominator(
                        j as int,
                        pow2(k as nat) as int,
                        2,
                    );
                    lemma_pow2_unfold((k + 1) as nat);
                    vstd::arithmetic::mul::lemma_mul_is_commutative(pow2(k as nat) as int, 2);
                }
                y = y >> 1;
                k = k + 1;
            }
            if !digest_eq(&acc, &self.merkle_root) {
                let ghost d = log2_of(self.leave_number as int);
                assert(q * (d * 32) == q * seg && (q + 1) * (d * 32) == (q + 1) * seg);
                assert(!(climb(
                    spec_sha256(bytes_view(leaves@)[q as int]),
                    leaf_indices@[q as int] as int,
                    proof@.subrange(q * (d * 32), (q + 1) * (d * 32)),
                    d,
                ) == self.merkle_root@));
                return false;
            }
            q = q + 1;
        }
        true
    }
}

/// The base-two logarithm of a power of two.
pub open spec fn log2_of(n: int) -> nat {
    choose|k: nat| pow2(k) == n
}

/// The logarithm of `2^k` is `k`.
pub proof fn lemma_log2_of(n: int, k: nat)
    requires
        pow2(k) == n,
    ensures
        log2_of(n) == k,
{
    let c = log2_of(n);
    assert(pow2(c) == n);
    if c < k {
        vstd::arithmetic::power2::lemma_pow2_strictly_increases(c, k);
    }
    if c > k {
        vstd::arithmetic::power2::lemma_pow2_strictly_increases(k, c);
    }
}

/// The path of opened leaf `t`: the `t`-th segment of `32 * depth` bytes of
/// the proof.
pub open spec fn path_segment(proof: Seq<u8>, depth: nat, t: int) -> Seq<u8> {
    proof.subrange(t * (depth * 32), (t + 1) * (depth * 32))
}

/// An opening of several leaves is accepted exactly when each opened leaf,
/// opened alone with its own segment of the proof, is accepted: no opened
/// position (not only the first) escapes the check against the root.
pub proof fn lemma_opening_ok_each_leaf(
    root: Seq<u8>,
    depth: nat,
    idx: Seq<usize>,
    leaves: Seq<Seq<u8>>,
    proof: Seq<u8>,
)
    requires
        proof.len() == idx.len() * (depth * 32),
    ensures
        opening_ok(root, depth, idx, leaves, proof) <==> forall|t: int|
            0 <= t < idx.len() ==> #[trigger] opening_ok(
                root,
                depth,
                seq![idx[t]],
                seq![leaves[t]],
                path_segment(proof, depth, t),
            ),
{
    let seg = depth * 32;
    assert forall|t: int| 0 <= t < idx.len() implies #[trigger] opening_ok(
        root,
        depth,
        seq![idx[t]],
        seq![leaves[t]],
        path_segment(proof, depth, t),
    ) == (climb(spec_sha256(leaves[t]), idx[t] as int, proof.subrange(t * seg, (t + 1) * seg), depth) == root) by {
        lemma_single_opening(root, depth, idx, leaves, proof, t);
    }
    if opening_ok(root, depth, idx, leaves, proof) {
        assert forall|t: int| 0 <= t < idx.len() implies #[trigger] opening_ok(
            root,
            depth,
            seq![idx[t]],
            seq![leaves[t]],
            path_segment(proof, depth, t),
        ) by {
            lemma_single_opening(root, depth, idx, leaves, proof, t);
        }
    }
    if forall|t: int|
        0 <= t < idx.len() ==> #[trigger] opening_ok(
            root,
            depth,
            seq![idx[t]],
            seq![leaves[t]],
            path_segment(proof, depth, t),
        ) {
        assert forall|t: int| 0 <= t < idx.len() implies #[trigger] climb(
            spec_sha256(leaves[t]),
            idx[t] as int,
            proof.subrange(t * (depth * 32), (t + 1) * (depth * 32)),
            depth,
        ) == root by {
            lemma_single_opening(root, depth, idx, leaves, proof, t);
        }
    }
}

/// Leaf `t` opened alone with its segment is accepted exactly when its
/// digest climbs with that segment to the root.
proof fn lemma_single_opening(
    root: Seq<u8>,
    depth: nat,
    idx: Seq<usize>,
    leaves: Seq<Seq<u8>>,
    proof: Seq<u8>,
    t: int,
)
    requires
        proof.len() == idx.len() * (depth * 32),
        0 <= t < idx.len(),
    ensures
        opening_ok(root, depth, seq![idx[t]], seq![leaves[t]], path_segment(proof, depth, t)) == (climb(
            spec_sha256(leaves[t]),
            idx[t] as int,
            proof.subrange(t * (depth * 32), (t + 1) * (depth * 32)),
            depth,
        ) == root),
{
    let seg: int = (depth * 32) as int;
    assert(t * seg + seg == (t + 1) * seg) by (nonlinear_arith);
    assert(t * seg >= 0) by (nonlinear_arith)
        requires
            t >= 0,
            seg >= 0,
    ;
    assert((t + 1) * seg <= idx.len() * seg) by (nonlinear_arith)
        requires
            t + 1 <= idx.len(),
            seg >= 0,
    ;
    let sub = path_segment(proof, depth, t);
    assert(sub.len() == seg);
    assert(sub.subrange(0, seg) =~= sub);
    assert(0 * seg == 0 && (0 + 1) * seg == seg) by (nonlinear_arith);
    let single_i = seq![idx[t]];
    let single_l = seq![leaves[t]];
    assert(single_i[0] == idx[t] && single_l[0] == leaves[t]);
    if climb(spec_sha256(leaves[t]), idx[t] as int, sub, depth) == root {
        assert forall|u: int| 0 <= u < single_i.len() implies #[trigger] climb(
            spec_sha256(single_l[u]),
            single_i[u] as int,
            sub.subrange(u * seg, (u + 1) * seg),
            depth,
        ) == root by {
            assert(u == 0);
        }
    }
    if opening_ok(root, depth, single_i, single_l, sub) {
        assert(climb(spec_sha256(single_l[0]), single_i[0] as int, sub.subrange(0 * seg, (0 + 1) * seg), depth) == root);
    }
}

} // verus!
