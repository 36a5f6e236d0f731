//! Committed codewords and their openings. A codeword of `len * leaf_size`
//! field elements is committed leaf by leaf: leaf `i` holds the bytes of the
//! entries `i, i + len, ..., i + (leaf_size - 1) * len`. A query result holds
//! the opened entries by position and the Merkle opening of their leaves.
use crate::merkle_tree::{
    byte_tree, bytes_view, lemma_log2_of, lemma_opening_complete, log2_of, opening, opening_ok, MerkleTreeProver,
    MerkleTreeVerifier,
};
use crate::mersenne_61_mont::{le_bytes, le_bytes_seq, views, Mersenne61Mont};
use crate::util::is_power_of_two;
use std::collections::HashMap;
use vstd::arithmetic::power2::pow2;
use vstd::prelude::*;

verus! {

broadcast use vstd::std_specs::hash::group_hash_axioms;

/// Bytes in the canonical encoding of a field element.
pub const ELEMENT_BYTES: usize = 8usize;

/// The entries that leaf `i` of a codeword with `len` leaves holds.
pub open spec fn leaf_entries(v: Seq<int>, len: int, leaf_size: nat, i: int) -> Seq<int> {
    Seq::new(leaf_size, |j: int| v[i + len * j])
}

/// The byte leaves of a codeword with `leaf_size` entries per leaf.
pub open spec fn interp_leaves(v: Seq<int>, leaf_size: nat) -> Seq<Seq<u8>> {
    let len = v.len() as int / leaf_size as int;
    Seq::new(len as nat, |i: int| le_bytes_seq(leaf_entries(v, len as int, leaf_size, i)))
}

/// The position of entry `j` of leaf `k`.
pub open spec fn leaf_pos(k: int, len: int, j: int) -> int {
    k + len * j
}

/// The positions opened for the leaves at `idx`.
pub open spec fn opened_positions(idx: Seq<usize>, len: int, leaf_size: nat) -> Set<usize> {
    Set::new(
        |k: usize|
            exists|t: int, j: int|
                0 <= t < idx.len() && 0 <= j < leaf_size && k == #[trigger] leaf_pos(idx[t] as int, len, j),
    )
}

/// The positions of the first `i` entries of leaf `k`.
spec fn leaf_prefix(k: int, len: int, i: int) -> Set<usize> {
    Set::new(|m: usize| exists|j: int| 0 <= j < i && m == #[trigger] leaf_pos(k, len, j))
}

/// Appending one element appends its bytes.
proof fn lemma_le_bytes_seq_push(s: Seq<int>, x: int)
    ensures
        le_bytes_seq(s.push(x)) == le_bytes_seq(s) + le_bytes(x),
{
    assert(s.push(x).drop_last() =~= s);
}

/// The bytes of the entries `k, k + len, ...` of a codeword.
fn leaf_bytes(value: &Vec<Mersenne61Mont>, k: usize, len: usize, leaf_size: usize) -> (r: Vec<u8>)
    requires
        k < len,
        len * leaf_size <= value.len(),
    ensures
        r@ == le_bytes_seq(leaf_entries(views(value@), len as int, leaf_size as nat, k as int)),
{
    let ghost v = views(value@);
    let mut out: Vec<u8> = Vec::new();
    let mut j: usize = 0;
    while j < leaf_size
        invariant
            k < len,
            len * leaf_size <= value.len(),
            v == views(value@),
            j <= leaf_size,
            out@ == le_bytes_seq(leaf_entries(v, len as int, leaf_size as nat, k as int).subrange(
                0,
                j as int,
            )),
        decreases leaf_size - j,
    {
        proof {
            vstd::arithmetic::mul::lemma_mul_inequality(j as int + 1, leaf_size as int, len as int);
            vstd::arithmetic::mul::lemma_mul_is_commutative(len as int, j as int);
            vstd::arithmetic::mul::lemma_mul_is_commutative(len as int, leaf_size as int);
            vstd::arithmetic::mul::lemma_mul_is_distributive_add_other_way(len as int, j as int, 1);
        }
        let pos = k + len * j;
        let mut b = value[pos].to_bytes();
        let ghost e = leaf_entries(v, len as int, leaf_size as nat, k as int);
        proof {
            lemma_le_bytes_seq_push(e.subrange(0, j as int), v[pos as int]);
            assert(e.subrange(0, j as int).push(v[pos as int]) =~= e.subrange(0, j + 1));
        }
        out.append(&mut b);
        j = j + 1;
    }
    assert(leaf_entries(v, len as int, leaf_size as nat, k as int).subrange(0, leaf_size as int)
        =~= leaf_entries(v, len as int, leaf_size as nat, k as int));
    out
}

/// The opened entries of a committed codeword and the Merkle opening of their leaves.
#[derive(Clone, Debug)]
pub struct QueryResult {
    pub proof_bytes: Vec<u8>,
    pub proof_values: HashMap<usize, Mersenne61Mont>,
}

/// The opened values at the positions of a leaf are all present.
pub open spec fn leaf_present(vals: Map<usize, Mersenne61Mont>, k: int, len: int, leaf_size: nat) -> bool {
    forall|j: int| 0 <= j < leaf_size ==> #[trigger] vals.contains_key((k + len * j) as usize)
}

/// The bytes of the leaf at `k`, read from the opened values.
pub open spec fn leaf_from_values(vals: Map<usize, Mersenne61Mont>, k: int, len: int, leaf_size: nat) -> Seq<u8> {
    le_bytes_seq(Seq::new(leaf_size, |j: int| vals[(k + len * j) as usize]@))
}

/// The opened leaves at `idx` are all present in `q` and authenticate
/// against the verifier's root.
pub open spec fn merkle_ok(q: QueryResult, idx: Seq<usize>, leaf_size: nat, mv: MerkleTreeVerifier) -> bool {
    &&& forall|t: int|
        0 <= t < idx.len() ==> #[trigger] leaf_present(q.proof_values@, idx[t] as int, mv.leave_number as int, leaf_size)
    &&& opening_ok(
        mv.merkle_root@,
        log2_of(mv.leave_number as int),
        idx,
        Seq::new(
            idx.len(),
            |t: int| leaf_from_values(q.proof_values@, idx[t] as int, mv.leave_number as int, leaf_size),
        ),
        q.proof_bytes@,
    )
}

impl QueryResult {
    /// The size of the proof in bytes: the opening and the opened values.
    pub open spec fn size_spec(&self) -> int {
        self.proof_bytes@.len() + self.proof_values@.len() * ELEMENT_BYTES
    }

    /// The size of the proof in bytes.
    pub fn proof_size(&self) -> (r: usize)
        requires
            self.size_spec() <= usize::MAX,
        ensures
            r == self.size_spec(),
    {
        proof {
            assert(self.proof_values@.dom().finite());
        }
        self.proof_bytes.len() + self.proof_values.len() * ELEMENT_BYTES
    }

    /// Checks the opened values of the leaves at `leaf_indices` against the
    /// verifier's root: every position of every leaf must be present, and the
    /// leaves must authenticate with the opening bytes.
    pub fn verify_merkle_tree(
        &self,
        leaf_indices: &Vec<usize>,
        leaf_size: usize,
        merkle_verifier: &MerkleTreeVerifier,
    ) -> (r: bool)
        requires
            is_power_of_two(merkle_verifier.leave_number as int),
            merkle_verifier.leave_number * leaf_size <= usize::MAX,
            forall|t: int|
                0 <= t < leaf_indices.len() ==> #[trigger] leaf_indices@[t] < merkle_verifier.leave_number,
        ensures
            r == merkle_ok(*self, leaf_indices@, leaf_size as nat, *merkle_verifier),
    {
        let len = merkle_verifier.leave_number;
        let ghost vals = self.proof_values@;
        let ghost want = Seq::new(
            leaf_indices.len() as nat,
            |t: int| leaf_from_values(vals, leaf_indices@[t] as int, len as int, leaf_size as nat),
        );
        let mut leaves: Vec<Vec<u8>> = Vec::new();
        let mut q: usize = 0;
        while q < leaf_indices.len()
            invariant
                len == merkle_verifier.leave_number,
                len * leaf_size <= usize::MAX,
                vals == self.proof_values@,
                forall|t: int| 0 <= t < leaf_indices.len() ==> #[trigger] leaf_indices@[t] < len,
                want == Seq::new(
                    leaf_indices.len() as nat,
                    |t: int| leaf_from_values(vals, leaf_indices@[t] as int, len as int, leaf_size as nat),
                ),
                q <= leaf_indices.len(),
                leaves@.len() == q,
                forall|t: int| 0 <= t < q ==> #[trigger] leaf_present(vals, leaf_indices@[t] as int, len as int, leaf_size as nat),
                bytes_view(leaves@) == want.subrange(0, q as int),
            decreases leaf_indices.len() - q,
        {
            let k = leaf_indices[q];
            let mut out: Vec<u8> = Vec::new();
            let ghost vs = Seq::new(leaf_size as nat, |j: int| vals[(k + len * j) as usize]@);
            let mut j: usize = 0;
            while j < leaf_size
                invariant
                    len == merkle_verifier.leave_number,
                    len * leaf_size <= usize::MAX,
                    k < len,
                    q < leaf_indices.len(),
                    k == leaf_indices@[q as int],
                    vals == self.proof_values@,
                    vs == Seq::new(leaf_size as nat, |j: int| vals[(k + len * j) as usize]@),
                    j <= leaf_size,
                    forall|i: int| 0 <= i < j ==> #[trigger] vals.contains_key((k + len * i) as usize),
                    out@ == le_bytes_seq(vs.subrange(0, j as int)),
                decreases leaf_size - j,
            {
                proof {
                    vstd::arithmetic::mul::lemma_mul_inequality(j as int + 1, leaf_size as int, len as int);
                    vstd::arithmetic::mul::lemma_mul_is_commutative(len as int, j as int);
                    vstd::arithmetic::mul::lemma_mul_is_commutative(len as int, leaf_size as int);
                    vstd::arithmetic::mul::lemma_mul_is_distributive_add_other_way(len as int, j as int, 1);
                }
                let pos = k + len * j;
                match self.proof_values.get(&pos) {
                    None => {
                        assert(!vals.contains_key(pos));
                        assert(pos == (k + len * j) as usize);
                        assert(!leaf_present(vals, leaf_indices@[q as int] as int, len as int, leaf_size as nat));
                        return false;
                    },
                    Some(x) => {
                        let mut b = x.to_bytes();
                        proof {
                            lemma_le_bytes_seq_push(vs.subrange(0, j as int), x@);
                            assert(vs.subrange(0, j as int).push(x@) =~= vs.subrange(0, j + 1));
                        }
                        out.append(&mut b);
                    },
                }
                j = j + 1;
            }
            assert(vs.subrange(0, leaf_size as int) =~= vs);
            assert(out@ == want[q as int]);
            let ghost before = bytes_view(leaves@);
            leaves.push(out);
            assert(bytes_view(leaves@) =~= before.push(want[q as int]));
            assert(bytes_view(leaves@) =~= want.subrange(0, q + 1));
            q = q + 1;
        }
        assert(want.subrange(0, leaf_indices.len() as int) =~= want);
        merkle_verifier.verify(&self.proof_bytes, leaf_indices, &leaves)
    }
}

/// `q` is the opening of the leaves at `idx` of the committed codeword `iv`:
/// the Merkle opening of those leaves and every entry of them by position.
pub open spec fn query_of(q: QueryResult, iv: InterpolateValue, idx: Seq<usize>) -> bool {
    &&& q.proof_bytes@ == opening(iv.tree(), idx)
    &&& q.proof_values@.dom() == opened_positions(idx, iv.leaves_len(), iv.leaf_count())
    &&& forall|k: usize| #[trigger]
        q.proof_values@.contains_key(k) ==> q.proof_values@[k]@ == iv.values()[k as int]
}

/// The root of a committed codeword.
pub open spec fn iv_root(iv: InterpolateValue) -> Seq<u8> {
    iv.tree()[iv.depth() as int][0]
}

/// A committed codeword: its entries, the number of entries per leaf, and the
/// Merkle tree over its leaves.
#[derive(Clone)]
pub struct InterpolateValue {
    value: Vec<Mersenne61Mont>,
    leaf_size: usize,
    merkle_tree: MerkleTreeProver,
}

impl InterpolateValue {
    /// The entries of the codeword.
    pub closed spec fn values(&self) -> Seq<int> {
        views(self.value@)
    }

    /// The number of entries per leaf.
    pub closed spec fn leaf_count(&self) -> nat {
        self.leaf_size as nat
    }

    /// The number of leaves.
    pub open spec fn leaves_len(&self) -> int {
        self.values().len() as int / self.leaf_count() as int
    }

    /// The Merkle tree over the leaves.
    pub closed spec fn tree(&self) -> Seq<Seq<Seq<u8>>> {
        self.merkle_tree.tree()
    }

    /// The depth of the Merkle tree.
    pub closed spec fn depth(&self) -> nat {
        self.merkle_tree.depth()
    }

    /// The codeword is committed: its length is the number of leaves times
    /// the leaf size, and the tree is built over its leaves.
    pub closed spec fn wf(&self) -> bool {
        &&& self.leaf_size > 0
        &&& self.value@.len() <= usize::MAX
        &&& self.value@.len() as int % (self.leaf_size as int) == 0
        &&& pow2(self.merkle_tree.depth()) == self.value@.len() as int / (self.leaf_size as int)
        &&& self.merkle_tree.wf()
        &&& self.merkle_tree.tree() == byte_tree(
            interp_leaves(views(self.value@), self.leaf_size as nat),
            self.merkle_tree.depth(),
        )
    }

    /// Commits to `value` with `leaf_size` entries per leaf.
    pub fn new(value: Vec<Mersenne61Mont>, leaf_size: usize) -> (r: Self)
        requires
            leaf_size > 0,
            value.len() % leaf_size == 0,
            is_power_of_two((value.len() / leaf_size) as int),
        ensures
            r.wf(),
            r.values() == views(value@),
            r.leaf_count() == leaf_size,
            pow2(r.depth()) == value.len() / leaf_size,
            r.tree() == byte_tree(interp_leaves(views(value@), leaf_size as nat), r.depth()),
    {
        let len = value.len() / leaf_size;
        let ghost v = views(value@);
        let ghost want = interp_leaves(v, leaf_size as nat);
        proof {
            vstd::arithmetic::div_mod::lemma_fundamental_div_mod(value.len() as int, leaf_size as int);
            vstd::arithmetic::mul::lemma_mul_is_commutative(len as int, leaf_size as int);
        }
        let mut leaves: Vec<Vec<u8>> = Vec::new();
        let mut i: usize = 0;
        while i < len
            invariant
                len == value.len() / leaf_size,
                len * leaf_size == value.len(),
                leaf_size > 0,
                v == views(value@),
                want == interp_leaves(v, leaf_size as nat),
                i <= len,
                bytes_view(leaves@) == want.subrange(0, i as int),
            decreases len - i,
        {
            let leaf = leaf_bytes(&value, i, len, leaf_size);
            let ghost before = bytes_view(leaves@);
            leaves.push(leaf);
            assert(bytes_view(leaves@) =~= before.push(want[i as int]));
            assert(bytes_view(leaves@) =~= want.subrange(0, i + 1));
            i = i + 1;
        }
        assert(want.subrange(0, len as int) =~= want);
        let merkle_tree = MerkleTreeProver::new(leaves);
        InterpolateValue { value, leaf_size, merkle_tree }
    }

    /// The entries of the codeword.
    pub fn value(&self) -> (r: &Vec<Mersenne61Mont>)
        ensures
            views(r@) == self.values(),
    {
        &self.value
    }

    /// The number of leaves.
    pub fn leave_num(&self) -> (r: usize)
        requires
            self.wf(),
        ensures
            r == self.leaves_len(),
            r == pow2(self.depth()),
    {
        self.merkle_tree.leave_num()
    }

    /// The Merkle root.
    pub fn commit(&self) -> (r: [u8; 32])
        requires
            self.wf(),
        ensures
            r@ == iv_root(*self),
    {
        self.merkle_tree.commit()
    }

    /// Opens the leaves at `leaf_indices`: every entry of those leaves by its
    /// position, and the Merkle opening of the leaves.
    pub fn query(&self, leaf_indices: &Vec<usize>) -> (r: QueryResult)
        requires
            self.wf(),
            forall|t: int| 0 <= t < leaf_indices.len() ==> #[trigger] leaf_indices@[t] < self.leaves_len(),
        ensures
            query_of(r, *self, leaf_indices@),
    {
        let len = self.merkle_tree.leave_num();
        let ghost v = views(self.value@);
        proof {
            vstd::arithmetic::div_mod::lemma_fundamental_div_mod(self.value.len() as int, self.leaf_size as int);
            vstd::arithmetic::mul::lemma_mul_is_commutative(len as int, self.leaf_size as int);
        }
        let leaf_size = self.leaf_size;
        let ghost target = opened_positions(leaf_indices@, len as int, leaf_size as nat);
        let mut proof_values: HashMap<usize, Mersenne61Mont> = HashMap::new();
        let mut q: usize = 0;
        while q < leaf_indices.len()
            invariant
                len * leaf_size == self.value.len(),
                leaf_size == self.leaf_size,
                v == views(self.value@),
                forall|t: int| 0 <= t < leaf_indices.len() ==> #[trigger] leaf_indices@[t] < len,
                q <= leaf_indices.len(),
                proof_values@.dom() == opened_positions(leaf_indices@.subrange(0, q as int), len as int, leaf_size as nat),
                forall|k: usize| #[trigger]
                    proof_values@.contains_key(k) ==> proof_values@[k]@ == v[k as int] && k < self.value.len(),
            decreases leaf_indices.len() - q,
        {
            let k = leaf_indices[q];
            let ghost prev = leaf_indices@.subrange(0, q as int);
            let ghost cur = leaf_indices@.subrange(0, q + 1);
            let mut i: usize = 0;
            while i < leaf_size
                invariant
                    len * leaf_size == self.value.len(),
                    leaf_size == self.leaf_size,
                    k < len,
                    v == views(self.value@),
                    i <= leaf_size,
                    proof_values@.dom() == opened_positions(prev, len as int, leaf_size as nat).union(
                        leaf_prefix(k as int, len as int, i as int),
                    ),
                    forall|m: usize| #[trigger]
                        proof_values@.contains_key(m) ==> proof_values@[m]@ == v[m as int] && m < self.value.len(),
                decreases leaf_size - i,
            {
                proof {
                    vstd::arithmetic::mul::lemma_mul_inequality(i as int + 1, leaf_size as int, len as int);
                    vstd::arithmetic::mul::lemma_mul_is_commutative(len as int, i as int);
                    vstd::arithmetic::mul::lemma_mul_is_commutative(len as int, leaf_size as int);
                    vstd::arithmetic::mul::lemma_mul_is_distributive_add_other_way(len as int, i as int, 1);
                }
                let pos = k + len * i;
                let ghost old_dom = proof_values@.dom();
                proof_values.insert(pos, self.value[pos]);
                assert(proof_values@.dom() =~= opened_positions(prev, len as int, leaf_size as nat).union(
                    leaf_prefix(k as int, len as int, i + 1),
                )) by {
                    assert forall|m: usize| #[trigger] proof_values@.dom().contains(m) == opened_positions(prev, len as int, leaf_size as nat).union(
                        leaf_prefix(k as int, len as int, i + 1),
                    ).contains(m) by {
                        if m == pos {
                            assert(m == leaf_pos(k as int, len as int, i as int));
                            assert(leaf_prefix(k as int, len as int, i + 1).contains(m));
                        }
                        if leaf_prefix(k as int, len as int, i + 1).contains(m) && m != pos {
                            let j = choose|j: int| 0 <= j < i + 1 && m == #[trigger] leaf_pos(k as int, len as int, j);
                            assert(j != i);
                            assert(leaf_prefix(k as int, len as int, i as int).contains(m));
                        }
                    }
                }
                i = i + 1;
            }
            assert(proof_values@.dom() =~= opened_positions(cur, len as int, leaf_size as nat)) by {
                assert forall|m: usize| #[trigger] proof_values@.dom().contains(m) == opened_positions(cur, len as int, leaf_size as nat).contains(m) by {
                    if opened_positions(cur, len as int, leaf_size as nat).contains(m) {
                        let (t, j) = choose|t: int, j: int| 0 <= t < cur.len() && 0 <= j < leaf_size && m == #[trigger] leaf_pos(cur[t] as int, len as int, j);
                        if t < q {
                            assert(prev[t] == cur[t]);
                            assert(opened_positions(prev, len as int, leaf_size as nat).contains(m));
                        } else {
                            assert(cur[t] == k);
                            assert(leaf_prefix(k as int, len as int, leaf_size as int).contains(m));
                        }
                    }
                    if opened_positions(prev, len as int, leaf_size as nat).contains(m) {
                        let (t, j) = choose|t: int, j: int| 0 <= t < prev.len() && 0 <= j < leaf_size && m == #[trigger] leaf_pos(prev[t] as int, len as int, j);
                        assert(cur[t] == prev[t]);
                        assert(opened_positions(cur, len as int, leaf_size as nat).contains(m));
                    }
                    if leaf_prefix(k as int, len as int, leaf_size as int).contains(m) {
                        let j = choose|j: int| 0 <= j < leaf_size && m == #[trigger] leaf_pos(k as int, len as int, j);
                        assert(cur[q as int] == k);
                        assert(opened_positions(cur, len as int, leaf_size as nat).contains(m));
                    }
                }
            }
            q = q + 1;
        }
        assert(leaf_indices@.subrange(0, leaf_indices.len() as int) =~= leaf_indices@);
        let proof_bytes = self.merkle_tree.open(leaf_indices);
        QueryResult { proof_bytes, proof_values }
    }
}

/// Completeness of codeword openings: the query result that `query` gives
/// at the leaves `idx` passes `verify_merkle_tree` against the codeword's
/// root and number of leaves.
pub proof fn lemma_query_verifies(iv: InterpolateValue, q: QueryResult, idx: Seq<usize>, mv: MerkleTreeVerifier)
    requires
        iv.wf(),
        query_of(q, iv, idx),
        forall|t: int| 0 <= t < idx.len() ==> #[trigger] idx[t] < iv.leaves_len(),
        mv.merkle_root@ == iv_root(iv),
        mv.leave_number == iv.leaves_len(),
    ensures
        merkle_ok(q, idx, iv.leaf_count(), mv),
{
    let p = iv.merkle_tree;
    let n = p.depth();
    let v = iv.values();
    let ls = iv.leaf_count();
    let len = iv.leaves_len();
    let leaves = interp_leaves(v, ls);
    let vals = q.proof_values@;
    vstd::arithmetic::div_mod::lemma_fundamental_div_mod(v.len() as int, ls as int);
    assert(leaves.len() == pow2(n));
    lemma_opening_complete(p, leaves, idx);
    lemma_log2_of(len, n);
    assert forall|t: int| 0 <= t < idx.len() implies #[trigger] leaf_present(vals, idx[t] as int, len, ls) by {
        assert forall|j: int| 0 <= j < ls implies #[trigger] vals.contains_key((idx[t] + len * j) as usize) by {
            vstd::arithmetic::mul::lemma_mul_inequality(j + 1, ls as int, len);
            vstd::arithmetic::mul::lemma_mul_is_distributive_add(len, j, 1);
            vstd::arithmetic::mul::lemma_mul_is_commutative(len, ls as int);
            assert(idx[t] + len * j < v.len());
            let k = (idx[t] + len * j) as usize;
            assert(k == leaf_pos(idx[t] as int, len, j));
            assert(opened_positions(idx, len, ls).contains(k));
        }
    }
    let want = Seq::new(idx.len(), |t: int| leaves[idx[t] as int]);
    let got = Seq::new(idx.len(), |t: int| leaf_from_values(vals, idx[t] as int, len, ls));
    assert(got =~= want) by {
        assert forall|t: int| 0 <= t < idx.len() implies got[t] == want[t] by {
            let k = idx[t] as int;
            assert(leaf_present(vals, k, len, ls));
            let a = Seq::new(ls, |j: int| vals[(k + len * j) as usize]@);
            let b = leaf_entries(v, len, ls, k);
            assert(a =~= b) by {
                assert forall|j: int| 0 <= j < ls implies a[j] == b[j] by {
                    vstd::arithmetic::mul::lemma_mul_inequality(j + 1, ls as int, len);
                    vstd::arithmetic::mul::lemma_mul_is_distributive_add(len, j, 1);
                    vstd::arithmetic::mul::lemma_mul_is_commutative(len, ls as int);
                    assert(k + len * j < v.len());
                    assert(((k + len * j) as usize) as int == k + len * j);
                    assert(vals.contains_key((k + len * j) as usize));
                }
            }
        }
    }
}

/// Two committed codewords with the same entries and the same number of
/// entries per leaf have the same root.
pub proof fn lemma_iv_root_determined(a: InterpolateValue, b: InterpolateValue)
    requires
        a.wf(),
        b.wf(),
        a.values() == b.values(),
        a.leaf_count() == b.leaf_count(),
    ensures
        iv_root(a) == iv_root(b),
{
    assert(a.value@.len() == a.values().len());
    assert(b.value@.len() == b.values().len());
    if a.depth() < b.depth() {
        vstd::arithmetic::power2::lemma_pow2_strictly_increases(a.depth(), b.depth());
    }
    if b.depth() < a.depth() {
        vstd::arithmetic::power2::lemma_pow2_strictly_increases(b.depth(), a.depth());
    }
    assert(a.depth() == b.depth());
}

} // verus!
