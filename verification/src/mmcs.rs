//! A mixed-matrix Merkle commitment: several codewords of decreasing
//! power-of-two lengths in one tree. The first layer holds the digests of the
//! longest codeword; each layer above hashes adjacent pairs and, where a
//! codeword of that length is next in line, hashes every digest once more
//! together with that codeword's digest at the same position. Once every
//! codeword is in, each layer is hashed together with a fixed default digest.
use crate::hash::{digest_eq, hash_bytes, hash_element, hash_pair, spec_hash_element, spec_hash_pair, spec_sha256};
use crate::merkle::{dseq, lemma_xor_one, next_layer, tree_view};
use crate::merkle_tree::sibling;
use crate::mersenne_61_mont::{views, Mersenne61Mont};
use crate::util::{is_power_of_two, log2_strict};
use vstd::arithmetic::power2::{lemma2_to64, lemma_pow2_pos, lemma_pow2_strictly_increases, lemma_pow2_unfold, pow2};
use vstd::prelude::*;

verus! {

/// The digest of 32 zero bytes, which fills the layers above the shortest codeword.
pub open spec fn default_digest() -> Seq<u8> {
    spec_sha256(Seq::new(32, |i: int| 0u8))
}

/// The digests of the entries of every codeword.
pub open spec fn hashed_values(values: Seq<Vec<Mersenne61Mont>>) -> Seq<Seq<Seq<u8>>> {
    values.map_values(|v: Vec<Mersenne61Mont>| views(v@).map_values(|x: int| spec_hash_element(x)))
}

/// Every digest of `l` hashed together with the digest at the same position of `inj`.
pub open spec fn inject(l: Seq<Seq<u8>>, inj: Seq<Seq<u8>>) -> Seq<Seq<u8>> {
    Seq::new(
        if l.len() <= inj.len() { l.len() } else { inj.len() },
        |t: int| spec_hash_pair(l[t], inj[t]),
    )
}

/// Every digest of `l` hashed together with the default digest.
pub open spec fn inject_default(l: Seq<Seq<u8>>) -> Seq<Seq<u8>> {
    Seq::new(l.len(), |t: int| spec_hash_pair(l[t], default_digest()))
}

/// Layer `i` of the tree and the index of the next codeword to take in.
pub open spec fn mmcs_state(hv: Seq<Seq<Seq<u8>>>, log_v: nat, i: nat) -> (Seq<Seq<u8>>, nat)
    decreases i,
{
    if i == 0 {
        (hv[0], 1)
    } else {
        let prev = mmcs_state(hv, log_v, (i - 1) as nat);
        let o = next_layer(prev.0);
        let idx = prev.1;
        if idx < hv.len() {
            if hv[idx as int].len() == pow2((log_v - i) as nat) {
                (inject(o, hv[idx as int]), idx + 1)
            } else {
                (o, idx)
            }
        } else {
            (inject_default(o), idx)
        }
    }
}

/// The `log_v + 1` layers of the tree.
pub open spec fn mmcs_tree(hv: Seq<Seq<Seq<u8>>>, log_v: nat) -> Seq<Seq<Seq<u8>>> {
    Seq::new(log_v + 1, |i: int| mmcs_state(hv, log_v, i as nat).0)
}

/// The codewords have power-of-two lengths, strictly decreasing from the first.
pub open spec fn heights_ok(values: Seq<Vec<Mersenne61Mont>>) -> bool {
    &&& values.len() >= 1
    &&& forall|k: int| 0 <= k < values.len() ==> #[trigger] is_power_of_two(values[k]@.len() as int)
    &&& forall|k: int| 0 < k < values.len() ==> #[trigger] values[k]@.len() < values[k - 1]@.len()
}

/// A power of two below `2^n` is at most `2^(n-1)`, and `n` is positive.
proof fn lemma_pow2_below(a: int, n: nat)
    requires
        is_power_of_two(a),
        a < pow2(n),
    ensures
        n >= 1,
        a <= pow2((n - 1) as nat),
{
    let k = choose|k: nat| pow2(k) == a;
    if n == 0 {
        lemma_pow2_pos(k);
        lemma2_to64();
    }
    if k >= n {
        if k > n {
            lemma_pow2_strictly_increases(n, k);
        }
    }
    if k < n - 1 {
        lemma_pow2_strictly_increases(k, (n - 1) as nat);
    }
}

/// The digests of the entries of a codeword.
fn hash_column(v: &Vec<Mersenne61Mont>) -> (r: Vec<[u8; 32]>)
    ensures
        dseq(r@) == views(v@).map_values(|x: int| spec_hash_element(x)),
{
    let mut out: Vec<[u8; 32]> = Vec::new();
    for j in 0..v.len()
        invariant
            dseq(out@) == views(v@).map_values(|x: int| spec_hash_element(x)).subrange(0, j as int),
    {
        let h = hash_element(v[j]);
        let ghost before = dseq(out@);
        out.push(h);
        assert(dseq(out@) =~= before.push(h@));
        assert(dseq(out@) =~= views(v@).map_values(|x: int| spec_hash_element(x)).subrange(0, j + 1));
    }
    assert(views(v@).map_values(|x: int| spec_hash_element(x)).subrange(0, v.len() as int)
        =~= views(v@).map_values(|x: int| spec_hash_element(x)));
    out
}

/// The digest of each adjacent pair.
fn pair_layer(prev: &Vec<[u8; 32]>) -> (r: Vec<[u8; 32]>)
    ensures
        dseq(r@) == next_layer(dseq(prev@)),
{
    let ghost lp = dseq(prev@);
    let plen = prev.len() / 2;
    let mut next: Vec<[u8; 32]> = Vec::new();
    for j in 0..plen
        invariant
            plen == prev.len() / 2,
            lp == dseq(prev@),
            dseq(next@) == next_layer(lp).subrange(0, j as int),
    {
        let h = hash_pair(&prev[2 * j], &prev[2 * j + 1]);
        let ghost before = dseq(next@);
        next.push(h);
        assert(dseq(next@) =~= before.push(h@));
        assert(dseq(next@) =~= next_layer(lp).subrange(0, j + 1));
    }
    assert(dseq(next@) =~= next_layer(lp));
    next
}

/// Every digest hashed together with the digest at the same position of `inj`.
fn inject_layer(l: &Vec<[u8; 32]>, inj: &Vec<[u8; 32]>) -> (r: Vec<[u8; 32]>)
    ensures
        dseq(r@) == inject(dseq(l@), dseq(inj@)),
{
    let n = if l.len() <= inj.len() {
        l.len()
    } else {
        inj.len()
    };
    let ghost want = inject(dseq(l@), dseq(inj@));
    let mut out: Vec<[u8; 32]> = Vec::new();
    for t in 0..n
        invariant
            n <= l.len(),
            n <= inj.len(),
            want == inject(dseq(l@), dseq(inj@)),
            want.len() == n,
            dseq(out@) == want.subrange(0, t as int),
    {
        let h = hash_pair(&l[t], &inj[t]);
        let ghost before = dseq(out@);
        out.push(h);
        assert(dseq(out@) =~= before.push(h@));
        assert(dseq(out@) =~= want.subrange(0, t + 1));
    }
    assert(want.subrange(0, n as int) =~= want);
    out
}

/// Every digest hashed together with `d`.
fn inject_digest(l: &Vec<[u8; 32]>, d: &[u8; 32]) -> (r: Vec<[u8; 32]>)
    ensures
        dseq(r@) == Seq::new(l@.len(), |t: int| spec_hash_pair(dseq(l@)[t], d@)),
{
    let ghost want = Seq::new(l@.len(), |t: int| spec_hash_pair(dseq(l@)[t], d@));
    let mut out: Vec<[u8; 32]> = Vec::new();
    for t in 0..l.len()
        invariant
            want == Seq::new(l@.len(), |t: int| spec_hash_pair(dseq(l@)[t], d@)),
            dseq(out@) == want.subrange(0, t as int),
    {
        let h = hash_pair(&l[t], d);
        let ghost before = dseq(out@);
        out.push(h);
        assert(dseq(out@) =~= before.push(h@));
        assert(dseq(out@) =~= want.subrange(0, t + 1));
    }
    assert(want.subrange(0, l.len() as int) =~= want);
    out
}

/// The default digest: the digest of 32 zero bytes.
fn default_hash() -> (r: [u8; 32])
    ensures
        r@ == default_digest(),
{
    let zeros: Vec<u8> = vec![0u8; 32];
    assert(zeros@ =~= Seq::new(32, |i: int| 0u8));
    hash_bytes(&zeros)
}

/// Builds the tree over codewords of strictly decreasing power-of-two lengths.
pub fn merkelize_mmcs(values: &Vec<Vec<Mersenne61Mont>>) -> (r: Vec<Vec<[u8; 32]>>)
    requires
        heights_ok(values@),
    ensures
        tree_view(r@) == mmcs_tree(hashed_values(values@), log2_of_len(values@[0]@.len())),
{
    let log_v = log2_strict(values[0].len());
    let ghost hv = hashed_values(values@);
    let mut hashed: Vec<Vec<[u8; 32]>> = Vec::new();
    for k in 0..values.len()
        invariant
            hv == hashed_values(values@),
            tree_view(hashed@) == hv.subrange(0, k as int),
    {
        let col = hash_column(&values[k]);
        let ghost before = tree_view(hashed@);
        hashed.push(col);
        assert(tree_view(hashed@) =~= before.push(dseq(col@)));
        assert(tree_view(hashed@) =~= hv.subrange(0, k + 1));
    }
    assert(hv.subrange(0, values.len() as int) =~= hv);
    proof {
        crate::merkle_tree::lemma_log2_of(values@[0]@.len() as int, log_v as nat);
    }
    let mut tree: Vec<Vec<[u8; 32]>> = Vec::new();
    tree.push(copy_layer(&hashed[0]));
    assert(tree_view(tree@) =~= Seq::new(1, |i: int| mmcs_state(hv, log_v as nat, i as nat).0));
    let mut idx: usize = 1;
    let mut i: usize = 0;
    let l0 = values[0].len();
    proof {
        if values@.len() > 1 {
            assert(values@[1]@.len() < values@[0]@.len());
            assert(is_power_of_two(values@[1]@.len() as int));
            lemma_pow2_below(values@[1]@.len() as int, log_v as nat);
        }
    }
    while idx < values.len()
        invariant
            heights_ok(values@),
            l0 == values@[0]@.len(),
            hv == hashed_values(values@),
            tree_view(hashed@) == hv,
            pow2(log_v as nat) == values@[0]@.len(),
            log_v < 64,
            1 <= idx <= values.len(),
            tree@.len() == i + 1,
            tree_view(tree@) == Seq::new((i + 1) as nat, |q: int| mmcs_state(hv, log_v as nat, q as nat).0),
            mmcs_state(hv, log_v as nat, i as nat).1 == idx,
            idx < values.len() ==> i < log_v && values@[idx as int]@.len() <= pow2((log_v - i - 1) as nat),
            i <= log_v,
        decreases log_v - i,
    {
        let ghost st = mmcs_state(hv, log_v as nat, i as nat);
        assert(dseq(tree@[i as int]@) == st.0) by {
            assert(tree_view(tree@)[i as int] == dseq(tree@[i as int]@));
        }
        let mut oracle = pair_layer(&tree[i]);
        proof {
            vstd::arithmetic::power2::lemma2_to64_rest();
            if (log_v - i - 1) < log_v {
                lemma_pow2_strictly_increases((log_v - i - 1) as nat, log_v as nat);
            }
        }
        let target = crate::util::pow2_of(log_v - i - 1);
        assert(hv[idx as int].len() == values@[idx as int]@.len()) by {
            assert(hv[idx as int] == views(values@[idx as int]@).map_values(|x: int| spec_hash_element(x)));
        }
        if values[idx].len() == target {
            assert(tree_view(hashed@)[idx as int] == dseq(hashed@[idx as int]@));
            assert(dseq(hashed@[idx as int]@) == hv[idx as int]);
            oracle = inject_layer(&oracle, &hashed[idx]);
            proof {
                if idx + 1 < values@.len() {
                    assert(values@[idx + 1]@.len() < values@[idx as int]@.len());
                    assert(is_power_of_two(values@[idx + 1]@.len() as int));
                    lemma_pow2_below(values@[idx + 1]@.len() as int, (log_v - i - 1) as nat);
                }
            }
            idx = idx + 1;
        } else {
            proof {
                assert(is_power_of_two(values@[idx as int]@.len() as int));
                lemma_pow2_below(values@[idx as int]@.len() as int, (log_v - i - 1) as nat);
            }
        }
        let ghost old_tree = tree@;
        tree.push(oracle);
        assert forall|q: int| 0 <= q < i + 2 implies tree_view(tree@)[q] == mmcs_state(hv, log_v as nat, q as nat).0 by {
            if q < i + 1 {
                assert(tree@[q] == old_tree[q]);
                assert(tree_view(old_tree)[q] == Seq::new((i + 1) as nat, |q: int| mmcs_state(hv, log_v as nat, q as nat).0)[q]);
            }
        }
        assert(tree_view(tree@) =~= Seq::new((i + 2) as nat, |q: int| mmcs_state(hv, log_v as nat, q as nat).0));
        i = i + 1;
    }
    let default_h = default_hash();
    while i < log_v
        invariant
            hv == hashed_values(values@),
            idx == values.len(),
            hv.len() == values.len(),
            tree@.len() == i + 1,
            tree_view(tree@) == Seq::new((i + 1) as nat, |q: int| mmcs_state(hv, log_v as nat, q as nat).0),
            mmcs_state(hv, log_v as nat, i as nat).1 == idx,
            default_h@ == default_digest(),
            i <= log_v,
        decreases log_v - i,
    {
        assert(dseq(tree@[i as int]@) == mmcs_state(hv, log_v as nat, i as nat).0) by {
            assert(tree_view(tree@)[i as int] == dseq(tree@[i as int]@));
        }
        let o = pair_layer(&tree[i]);
        let oracle = inject_digest(&o, &default_h);
        assert(dseq(oracle@) =~= inject_default(dseq(o@)));
        let ghost old_tree = tree@;
        tree.push(oracle);
        assert forall|q: int| 0 <= q < i + 2 implies tree_view(tree@)[q] == mmcs_state(hv, log_v as nat, q as nat).0 by {
            if q < i + 1 {
                assert(tree@[q] == old_tree[q]);
                assert(tree_view(old_tree)[q] == Seq::new((i + 1) as nat, |q: int| mmcs_state(hv, log_v as nat, q as nat).0)[q]);
            }
        }
        assert(tree_view(tree@) =~= Seq::new((i + 2) as nat, |q: int| mmcs_state(hv, log_v as nat, q as nat).0));
        i = i + 1;
    }
    assert(tree_view(tree@) =~= mmcs_tree(hv, log_v as nat));
    tree
}

/// The sibling digests on the path from position `x` in the first `k` layers.
pub open spec fn mmcs_path(t: Seq<Seq<Seq<u8>>>, x: int, k: nat) -> Seq<Seq<u8>> {
    Seq::new(k, |i: int| t[i][sibling(x / pow2(i as nat) as int)])
}

/// The path from `x` stays inside every layer below the root.
pub open spec fn mmcs_path_in_bounds(t: Seq<Seq<Seq<u8>>>, x: int) -> bool {
    &&& t.len() >= 1
    &&& x >= 0
    &&& forall|i: int| 0 <= i < t.len() - 1 ==> 0 <= #[trigger] sibling(x / pow2(i as nat) as int) < t[i].len()
}

/// The sibling digest at every layer below the root on the path from `x_index`.
pub fn get_merkle_path_mmcs(tree: &Vec<Vec<[u8; 32]>>, x_index: usize) -> (r: Vec<[u8; 32]>)
    requires
        mmcs_path_in_bounds(tree_view(tree@), x_index as int),
    ensures
        dseq(r@) == mmcs_path(tree_view(tree@), x_index as int, (tree@.len() - 1) as nat),
{
    let ghost t = tree_view(tree@);
    let mut queries: Vec<[u8; 32]> = Vec::new();
    let mut x = x_index;
    let mut i: usize = 0;
    proof {
        lemma2_to64();
    }
    while i + 1 < tree.len()
        invariant
            t == tree_view(tree@),
            mmcs_path_in_bounds(t, x_index as int),
            i + 1 <= tree.len(),
            x == x_index as int / pow2(i as nat) as int,
            dseq(queries@) == mmcs_path(t, x_index as int, i as nat),
        decreases tree.len() - i,
    {
        proof {
            lemma_xor_one(x);
            lemma_pow2_pos(i as nat);
        }
        assert(t[i as int] == dseq(tree@[i as int]@));
        let s = x ^ 1;
        assert(s == sibling(x as int));
        assert(t.len() == tree@.len());
        let ghost ii: int = i as int;
        assert(0 <= ii < t.len() - 1);
        assert(0 <= sibling(x_index as int / pow2(ii as nat) as int) < t[ii].len());
        assert(dseq(tree@[i as int]@).len() == tree@[i as int]@.len());
        let d = tree[i][s];
        let ghost before = dseq(queries@);
        queries.push(d);
        assert(dseq(queries@) =~= before.push(d@));
        assert(dseq(queries@) =~= mmcs_path(t, x_index as int, (i + 1) as nat));
        proof {
            vstd::arithmetic::div_mod::lemma_div_denominator(x_index as int, pow2(i as nat) as int, 2);
            lemma_pow2_unfold((i + 1) as nat);
            vstd::arithmetic::mul::lemma_mul_is_commutative(pow2(i as nat) as int, 2);
        }
        x = x >> 1;
        i = i + 1;
    }
    queries
}

/// The digest reached after `k` layers from the digest of the first opening
/// at position `x`: each layer hashes with the path's sibling on the side
/// the position's bit gives, then with the next opening's digest while
/// openings remain, and with the default digest after.
pub open spec fn mmcs_climb(path: Seq<Seq<u8>>, openings: Seq<int>, x: int, k: nat) -> Seq<u8>
    decreases k,
{
    if k == 0 {
        spec_hash_element(openings[0])
    } else {
        let i = (k - 1) as int;
        let o = mmcs_climb(path, openings, x, (k - 1) as nat);
        let a = if (x / pow2(i as nat) as int) % 2 == 0 {
            spec_hash_pair(o, path[i])
        } else {
            spec_hash_pair(path[i], o)
        };
        if i < openings.len() - 1 {
            spec_hash_pair(a, spec_hash_element(openings[i + 1]))
        } else {
            spec_hash_pair(a, default_digest())
        }
    }
}

/// Checks an opening: the digest climbed over `num_vars` layers from the
/// openings along the path is the root.
pub fn authenticate_merkle_path_mmcs(
    path: &Vec<[u8; 32]>,
    openings: &Vec<Mersenne61Mont>,
    x_index: usize,
    num_vars: usize,
    root: &[u8; 32],
) -> (r: bool)
    requires
        openings.len() >= 1,
        path.len() >= num_vars,
    ensures
        r == (mmcs_climb(dseq(path@), views(openings@), x_index as int, num_vars as nat) == root@),
{
    let ghost p = dseq(path@);
    let ghost o = views(openings@);
    let mut obj = hash_element(openings[0]);
    let default_h = default_hash();
    let mut x = x_index;
    let mut i: usize = 0;
    proof {
        lemma2_to64();
    }
    while i < num_vars
        invariant
            p == dseq(path@),
            o == views(openings@),
            openings.len() >= 1,
            path.len() >= num_vars,
            i <= num_vars,
            default_h@ == default_digest(),
            x == x_index as int / pow2(i as nat) as int,
            obj@ == mmcs_climb(p, o, x_index as int, i as nat),
        decreases num_vars - i,
    {
        proof {
            lemma_xor_one(x);
            lemma_pow2_pos(i as nat);
        }
        assert(p[i as int] == path@[i as int]@);
        if x % 2 == 0 {
            obj = hash_pair(&obj, &path[i]);
        } else {
            obj = hash_pair(&path[i], &obj);
        }
        if i < openings.len() - 1 {
            let lh = hash_element(openings[i + 1]);
            obj = hash_pair(&obj, &lh);
        } else {
            obj = hash_pair(&obj, &default_h);
        }
        proof {
            vstd::arithmetic::div_mod::lemma_div_denominator(x_index as int, pow2(i as nat) as int, 2);
            lemma_pow2_unfold((i + 1) as nat);
            vstd::arithmetic::mul::lemma_mul_is_commutative(pow2(i as nat) as int, 2);
        }
        x = x >> 1;
        i = i + 1;
    }
    digest_eq(&obj, root)
}

/// Codeword `k` has `2^(log_v - k)` entries: one layer per codeword.
pub open spec fn consecutive_heights(values: Seq<Vec<Mersenne61Mont>>, log_v: nat) -> bool {
    &&& values.len() >= 1
    &&& values.len() <= log_v + 1
    &&& forall|k: int| 0 <= k < values.len() ==> #[trigger] values[k]@.len() == pow2((log_v - k) as nat)
}

/// The openings at position `x`: entry `x / 2^k` of codeword `k`.
pub open spec fn mmcs_openings(values: Seq<Vec<Mersenne61Mont>>, x: int) -> Seq<int> {
    Seq::new(values.len(), |k: int| views(values[k]@)[x / pow2(k as nat) as int])
}

/// With one codeword per layer, layer `i` has `2^(log_v - i)` digests and the
/// codewords up to `i` have been taken in.
pub proof fn lemma_mmcs_state_shape(values: Seq<Vec<Mersenne61Mont>>, log_v: nat, i: nat)
    requires
        consecutive_heights(values, log_v),
        i <= log_v,
    ensures
        mmcs_state(hashed_values(values), log_v, i).1 == (if i + 1 <= values.len() { i + 1 } else { values.len() }),
        mmcs_state(hashed_values(values), log_v, i).0.len() == pow2((log_v - i) as nat),
    decreases i,
{
    let hv = hashed_values(values);
    if i == 0 {
        assert(hv[0].len() == values[0]@.len());
    } else {
        lemma_mmcs_state_shape(values, log_v, (i - 1) as nat);
        lemma_pow2_unfold((log_v - i + 1) as nat);
        let prev = mmcs_state(hv, log_v, (i - 1) as nat);
        if prev.1 < hv.len() {
            assert(hv[prev.1 as int].len() == values[prev.1 as int]@.len());
        }
    }
}

/// The digest climbed over `k` layers is the tree's digest above position `x`.
proof fn lemma_mmcs_climb_tree(values: Seq<Vec<Mersenne61Mont>>, log_v: nat, x: int, k: nat)
    requires
        consecutive_heights(values, log_v),
        0 <= x < pow2(log_v),
        k <= log_v,
    ensures
        0 <= (x / pow2(k) as int) < pow2((log_v - k) as nat),
        mmcs_climb(
            mmcs_path(mmcs_tree(hashed_values(values), log_v), x, log_v),
            mmcs_openings(values, x),
            x,
            k,
        ) == mmcs_tree(hashed_values(values), log_v)[k as int][x / pow2(k) as int],
    decreases k,
{
    let hv = hashed_values(values);
    let t = mmcs_tree(hv, log_v);
    let path = mmcs_path(t, x, log_v);
    let op = mmcs_openings(values, x);
    lemma_pow2_pos(k);
    vstd::arithmetic::power2::lemma_pow2_adds(k, (log_v - k) as nat);
    vstd::arithmetic::div_mod::lemma_multiply_divide_lt(x, pow2(k) as int, pow2((log_v - k) as nat) as int);
    vstd::arithmetic::div_mod::lemma_div_pos_is_pos(x, pow2(k) as int);
    if k == 0 {
        lemma2_to64();
        assert(pow2(0) as int == 1);
        assert(x / 1 == x);
        assert(x / pow2(0) as int == x);
        assert(hv[0] == views(values[0]@).map_values(|e: int| spec_hash_element(e)));
        assert(op[0] == views(values[0]@)[x]);
    } else {
        let i = (k - 1) as nat;
        lemma_mmcs_climb_tree(values, log_v, x, i);
        let y = x / pow2(i) as int;
        lemma_pow2_pos(i);
        vstd::arithmetic::div_mod::lemma_div_denominator(x, pow2(i) as int, 2);
        lemma_pow2_unfold(k);
        vstd::arithmetic::mul::lemma_mul_is_commutative(pow2(i) as int, 2);
        assert(x / pow2(k) as int == y / 2);
        lemma_mmcs_state_shape(values, log_v, i);
        lemma_mmcs_state_shape(values, log_v, k);
        lemma_pow2_unfold((log_v - i) as nat);
        let li = t[i as int];
        assert(li == mmcs_state(hv, log_v, i).0);
        assert(path[i as int] == li[sibling(y)]);
        let nx = next_layer(li);
        assert(nx[y / 2] == spec_hash_pair(li[2 * (y / 2)], li[2 * (y / 2) + 1]));
        let prev = mmcs_state(hv, log_v, i);
        if k < values.len() {
            assert(prev.1 == k);
            assert(hv[k as int].len() == values[k as int]@.len());
            assert(hv[k as int] == views(values[k as int]@).map_values(|e: int| spec_hash_element(e)));
            assert(op[k as int] == views(values[k as int]@)[y / 2]);
        } else {
            assert(prev.1 == values.len());
        }
    }
}

/// Completeness of mixed-matrix openings: for codewords with one per layer,
/// the path that `get_merkle_path_mmcs` reads from the tree that
/// `merkelize_mmcs` builds, together with each codeword's entry along it,
/// authenticates up to the root as `authenticate_merkle_path_mmcs` checks it.
pub proof fn lemma_mmcs_path_complete(values: Seq<Vec<Mersenne61Mont>>, log_v: nat, x: int)
    requires
        consecutive_heights(values, log_v),
        0 <= x < pow2(log_v),
    ensures
        mmcs_path_in_bounds(mmcs_tree(hashed_values(values), log_v), x),
        mmcs_climb(
            mmcs_path(mmcs_tree(hashed_values(values), log_v), x, log_v),
            mmcs_openings(values, x),
            x,
            log_v,
        ) == mmcs_tree(hashed_values(values), log_v)[log_v as int][0],
{
    let hv = hashed_values(values);
    let t = mmcs_tree(hv, log_v);
    lemma_mmcs_climb_tree(values, log_v, x, log_v);
    lemma2_to64();
    assert(x / pow2(log_v) as int == 0) by {
        vstd::arithmetic::div_mod::lemma_basic_div(x, pow2(log_v) as int);
    }
    assert forall|i: int| 0 <= i < t.len() - 1 implies 0 <= #[trigger] sibling(x / pow2(i as nat) as int) < t[i].len() by {
        lemma_mmcs_climb_tree(values, log_v, x, i as nat);
        lemma_mmcs_state_shape(values, log_v, i as nat);
        lemma_pow2_unfold((log_v - i) as nat);
    }
}

/// The base-two logarithm of the length of the longest codeword.
pub open spec fn log2_of_len(n: nat) -> nat {
    crate::merkle_tree::log2_of(n as int)
}

/// A copy of a layer of digests.
fn copy_layer(v: &Vec<[u8; 32]>) -> (r: Vec<[u8; 32]>)
    ensures
        r@ == v@,
{
    let mut out: Vec<[u8; 32]> = Vec::new();
    for i in 0..v.len()
        invariant
            out@ == v@.subrange(0, i as int),
    {
        out.push(v[i]);
        assert(out@ =~= v@.subrange(0, i + 1));
    }
    assert(v@.subrange(0, v.len() as int) =~= v@);
    out
}

} // verus!
