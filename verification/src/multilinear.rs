//! Multilinear polynomials given by their `2^n` values on the Boolean
//! hypercube, with the helpers the Virgo scheme uses on them.
use crate::coset::VanishingPolynomial;
use crate::mersenne_61_mont::{fmul, lemma_view_range, views, Mersenne61Mont};
use crate::util::{is_power_of_two, log2_strict, pow2_of};
use vstd::arithmetic::power2::{lemma2_to64, lemma_pow2_strictly_increases, pow2};
use vstd::prelude::*;

verus! {

broadcast use lemma_view_range;

/// The index whose bit `i` is set exactly where coordinate `i` of the point is one.
pub open spec fn ones_index(point: Seq<int>) -> int
    decreases point.len(),
{
    if point.len() == 0 {
        0
    } else {
        ones_index(point.drop_last()) + (if point.last() == 1 {
            pow2((point.len() - 1) as nat) as int
        } else {
            0
        })
    }
}

/// Two polynomials with the same values in the same number of variables.
pub open spec fn same_poly(a: MultilinearPolynomial, b: MultilinearPolynomial) -> bool {
    a.evals_view() == b.evals_view() && a.num_vars_view() == b.num_vars_view()
}

/// A multilinear polynomial in `num_vars` variables, by its values.
#[derive(Clone, Debug)]
pub struct MultilinearPolynomial {
    evals: Vec<Mersenne61Mont>,
    num_vars: usize,
}

impl MultilinearPolynomial {
    /// The values of the polynomial.
    pub closed spec fn evals_view(&self) -> Seq<int> {
        views(self.evals@)
    }

    /// The number of variables.
    pub closed spec fn num_vars_view(&self) -> nat {
        self.num_vars as nat
    }

    /// There is one value per point of the hypercube.
    pub open spec fn wf(&self) -> bool {
        &&& self.evals_view().len() == pow2(self.num_vars_view())
        &&& self.num_vars_view() < 64
    }

    /// The polynomial with the given values, whose number is a power of two.
    pub fn new(evals: Vec<Mersenne61Mont>) -> (r: Self)
        requires
            is_power_of_two(evals.len() as int),
        ensures
            r.wf(),
            r.evals_view() == views(evals@),
            pow2(r.num_vars_view()) == evals.len(),
    {
        let num_vars = log2_strict(evals.len());
        MultilinearPolynomial { evals, num_vars }
    }

    /// A copy of the polynomial.
    pub fn copy_poly(&self) -> (r: Self)
        ensures
            same_poly(r, *self),
    {
        let mut out: Vec<Mersenne61Mont> = Vec::new();
        for i in 0..self.evals.len()
            invariant
                out@ == self.evals@.subrange(0, i as int),
        {
            out.push(self.evals[i]);
            assert(out@ =~= self.evals@.subrange(0, i + 1));
        }
        assert(self.evals@.subrange(0, self.evals.len() as int) =~= self.evals@);
        MultilinearPolynomial { evals: out, num_vars: self.num_vars }
    }

    /// The values of the polynomial.
    pub fn evals(&self) -> (r: &Vec<Mersenne61Mont>)
        ensures
            views(r@) == self.evals_view(),
    {
        &self.evals
    }

    /// The number of variables.
    pub fn num_vars(&self) -> (r: usize)
        ensures
            r == self.num_vars_view(),
    {
        self.num_vars
    }

    /// The values on the Boolean hypercube, which are the values the
    /// polynomial is given by.
    pub fn evaluate_hypercube(&self) -> (r: Vec<Mersenne61Mont>)
        ensures
            views(r@) == self.evals_view(),
    {
        self.evals.clone()
    }

    /// The coefficient vector, which is the vector of values.
    pub fn coefficients(&self) -> (r: Vec<Mersenne61Mont>)
        ensures
            views(r@) == self.evals_view(),
    {
        self.evals.clone()
    }

    /// `2^num_vars - 1`.
    pub fn degree(&self) -> (r: usize)
        requires
            self.wf(),
        ensures
            r == pow2(self.num_vars_view()) - 1,
    {
        let l = self.evals.len();
        assert(l == pow2(self.num_vars as nat));
        proof {
            vstd::arithmetic::power2::lemma_pow2_pos(self.num_vars as nat);
        }
        pow2_of(self.num_vars) - 1
    }

    /// The value at the index whose bits are set where the point's
    /// coordinates are one.
    pub fn evaluate_poly(&self, point: &[Mersenne61Mont]) -> (r: Mersenne61Mont)
        requires
            self.wf(),
            forall|i: int|
                0 <= i < point@.len() && #[trigger] point@[i]@ == 1 ==> i < self.num_vars_view(),
        ensures
            0 <= ones_index(views(point@)) < self.evals_view().len(),
            r@ == self.evals_view()[ones_index(views(point@))],
    {
        let ghost pts = views(point@);
        let l = self.evals.len();
        let mut idx: usize = 0;
        let mut i: usize = 0;
        proof {
            lemma2_to64();
            assert(pts.subrange(0, 0).len() == 0);
        }
        while i < point.len()
            invariant
                self.wf(),
                l == self.evals@.len(),
                pts == views(point@),
                i <= point.len(),
                forall|j: int|
                    0 <= j < point@.len() && #[trigger] point@[j]@ == 1 ==> j < self.num_vars_view(),
                idx == ones_index(pts.subrange(0, i as int)),
                idx < pow2(if i < self.num_vars { i as nat } else { self.num_vars as nat }),
            decreases point.len() - i,
        {
            let ghost pre = pts.subrange(0, i as int);
            let ghost post = pts.subrange(0, i + 1);
            assert(post.drop_last() =~= pre);
            if point[i].equals(&Mersenne61Mont::one()) {
                assert(i < self.num_vars);
                proof {
                    lemma_pow2_strictly_increases(i as nat, self.num_vars as nat);
                }
                let bit = pow2_of(i);
                proof {
                    vstd::arithmetic::power2::lemma_pow2_adds(i as nat, 1);
                    assert(pow2(1) == 2) by {
                        lemma2_to64();
                    }
                    if i + 1 < self.num_vars {
                        lemma_pow2_strictly_increases((i + 1) as nat, self.num_vars as nat);
                    }
                }
                idx = idx + bit;
            } else {
                proof {
                    if i < self.num_vars && i + 1 <= self.num_vars {
                        if i + 1 <= self.num_vars {
                            vstd::arithmetic::power2::lemma_pow2_strictly_increases(i as nat, (i + 1) as nat);
                        }
                    }
                }
            }
            i = i + 1;
        }
        proof {
            assert(pts.subrange(0, pts.len() as int) =~= pts);
            if point.len() < self.num_vars {
                lemma_pow2_strictly_increases(point.len() as nat, self.num_vars as nat);
            }
        }
        self.evals[idx]
    }
}

/// The pointwise product of the values of two polynomials, over the shorter one.
pub fn mult_poly(p1: &MultilinearPolynomial, p2: &MultilinearPolynomial) -> (r: MultilinearPolynomial)
    requires
        p1.wf(),
        p2.wf(),
    ensures
        r.wf(),
        r.evals_view() == Seq::new(
            (if p1.evals_view().len() <= p2.evals_view().len() {
                p1.evals_view().len()
            } else {
                p2.evals_view().len()
            }),
            |i: int| fmul(p1.evals_view()[i], p2.evals_view()[i]),
        ),
{
    let a = p1.evals();
    let b = p2.evals();
    let n = if a.len() <= b.len() {
        a.len()
    } else {
        b.len()
    };
    let ghost want = Seq::new(n as nat, |i: int| fmul(p1.evals_view()[i], p2.evals_view()[i]));
    let mut out: Vec<Mersenne61Mont> = Vec::new();
    let mut i: usize = 0;
    while i < n
        invariant
            n <= a.len(),
            n <= b.len(),
            views(a@) == p1.evals_view(),
            views(b@) == p2.evals_view(),
            want == Seq::new(n as nat, |i: int| fmul(p1.evals_view()[i], p2.evals_view()[i])),
            i <= n,
            views(out@) == want.subrange(0, i as int),
        decreases n - i,
    {
        let ghost before = views(out@);
        out.push(a[i].mul(b[i]));
        assert(views(out@) =~= before.push(want[i as int]));
        assert(views(out@) =~= want.subrange(0, i + 1));
        i = i + 1;
    }
    assert(want.subrange(0, n as int) =~= want);
    proof {
        let k1 = p1.num_vars_view();
        let k2 = p2.num_vars_view();
        assert(p1.evals_view().len() == pow2(k1));
        assert(p2.evals_view().len() == pow2(k2));
        assert(is_power_of_two(n as int)) by {
            if n == a.len() {
                assert(pow2(k1) == n);
            } else {
                assert(pow2(k2) == n);
            }
        }
    }
    MultilinearPolynomial::new(out)
}

/// The entries are strictly increasing.
pub open spec fn strictly_sorted(s: Seq<usize>) -> bool {
    forall|i: int, j: int| 0 <= i < j < s.len() ==> s[i] < s[j]
}

/// Two strictly increasing sequences with the same elements are the same.
pub proof fn lemma_sorted_unique(a: Seq<usize>, b: Seq<usize>)
    requires
        strictly_sorted(a),
        strictly_sorted(b),
        a.to_set() == b.to_set(),
    ensures
        a == b,
    decreases a.len(),
{
    if a.len() == 0 {
        if b.len() > 0 {
            assert(b.to_set().contains(b[0]));
        }
        assert(a =~= b);
    } else if b.len() == 0 {
        assert(a.to_set().contains(a[0]));
    } else {
        assert(b.to_set().contains(a[0]));
        assert(a.to_set().contains(b[0]));
        let i = choose|i: int| 0 <= i < a.len() && a[i] == b[0];
        let j = choose|j: int| 0 <= j < b.len() && b[j] == a[0];
        assert(a[0] == b[0]) by {
            if i > 0 {
                assert(a[0] < a[i]);
            }
            if j > 0 {
                assert(b[0] < b[j]);
            }
        }
        let a1 = a.drop_first();
        let b1 = b.drop_first();
        assert(a1.to_set() =~= b1.to_set()) by {
            assert forall|x: usize| a1.to_set().contains(x) implies b1.to_set().contains(x) by {
                let u = choose|u: int| 0 <= u < a1.len() && a1[u] == x;
                assert(a[u + 1] == x);
                assert(a[0] < a[u + 1]);
                assert(a.to_set().contains(x));
                let v = choose|v: int| 0 <= v < b.len() && b[v] == x;
                assert(v != 0);
                assert(b1[v - 1] == x);
            }
            assert forall|x: usize| b1.to_set().contains(x) implies a1.to_set().contains(x) by {
                let u = choose|u: int| 0 <= u < b1.len() && b1[u] == x;
                assert(b[u + 1] == x);
                assert(b[0] < b[u + 1]);
                assert(b.to_set().contains(x));
                let v = choose|v: int| 0 <= v < a.len() && a[v] == x;
                assert(v != 0);
                assert(a1[v - 1] == x);
            }
        }
        lemma_sorted_unique(a1, b1);
        assert(a =~= b) by {
            assert forall|k: int| 0 <= k < a.len() implies a[k] == b[k] by {
                if k > 0 {
                    assert(a[k] == a1[k - 1]);
                    assert(b[k] == b1[k - 1]);
                }
            }
        }
    }
}

/// The residues of the indices modulo `len`.
pub open spec fn residues(idx: Seq<usize>, len: int) -> Set<usize> {
    Set::new(|v: usize| exists|t: int| 0 <= t < idx.len() && v == #[trigger] idx[t] % (len as usize))
}

/// The residues of the indices modulo `len`, sorted and without repetition.
pub fn fold_indices(indices: &Vec<usize>, len: usize) -> (r: Vec<usize>)
    requires
        len > 0,
    ensures
        strictly_sorted(r@),
        r@.to_set() == residues(indices@, len as int),
        forall|i: int| 0 <= i < r@.len() ==> #[trigger] r@[i] < len,
{
    let mut out: Vec<usize> = Vec::new();
    let mut t: usize = 0;
    while t < indices.len()
        invariant
            len > 0,
            t <= indices.len(),
            strictly_sorted(out@),
            out@.to_set() == residues(indices@.subrange(0, t as int), len as int),
            forall|i: int| 0 <= i < out@.len() ==> #[trigger] out@[i] < len,
        decreases indices.len() - t,
    {
        let v = indices[t] % len;
        let mut pos: usize = 0;
        while pos < out.len() && out[pos] < v
            invariant
                pos <= out.len(),
                forall|i: int| 0 <= i < pos ==> #[trigger] out@[i] < v,
            decreases out.len() - pos,
        {
            pos = pos + 1;
        }
        let ghost old_out = out@;
        let ghost pre = indices@.subrange(0, t as int);
        let ghost post = indices@.subrange(0, t + 1);
        assert(residues(post, len as int) =~= residues(pre, len as int).insert(v)) by {
            assert forall|x: usize| residues(post, len as int).contains(x) implies residues(pre, len as int).insert(v).contains(x) by {
                let s = choose|s: int| 0 <= s < post.len() && x == #[trigger] post[s] % (len as usize);
                if s < t {
                    assert(pre[s] == post[s]);
                }
            }
            assert forall|x: usize| residues(pre, len as int).insert(v).contains(x) implies residues(post, len as int).contains(x) by {
                if x == v {
                    assert(post[t as int] == indices@[t as int]);
                } else {
                    let s = choose|s: int| 0 <= s < pre.len() && x == #[trigger] pre[s] % (len as usize);
                    assert(post[s] == pre[s]);
                }
            }
        }
        if pos < out.len() && out[pos] == v {
            assert(old_out.to_set() =~= old_out.to_set().insert(v)) by {
                assert(old_out.contains(v));
            }
        } else {
            out.insert(pos, v);
            assert forall|i: int, j: int| 0 <= i < j < out@.len() implies out@[i] < out@[j] by {
                if j < pos {
                } else if j == pos {
                } else if i < pos {
                    assert(out@[j] == old_out[j - 1]);
                    if pos < old_out.len() {
                        assert(old_out[pos as int] > v);
                        assert(old_out[pos as int] <= old_out[j - 1]);
                    }
                } else if i == pos {
                    assert(old_out[pos as int] >= v);
                    assert(old_out[pos as int] != v);
                    assert(old_out[pos as int] <= old_out[j - 1]);
                } else {
                    assert(out@[i] == old_out[i - 1]);
                    assert(out@[j] == old_out[j - 1]);
                }
            }
            assert(out@.to_set() =~= old_out.to_set().insert(v)) by {
                assert forall|x: usize| out@.to_set().contains(x) implies old_out.to_set().insert(v).contains(x) by {
                    let i = choose|i: int| 0 <= i < out@.len() && out@[i] == x;
                    if i < pos {
                        assert(old_out[i] == x);
                    } else if i > pos {
                        assert(old_out[i - 1] == x);
                    }
                }
                assert forall|x: usize| old_out.to_set().insert(v).contains(x) implies out@.to_set().contains(x) by {
                    if x == v {
                        assert(out@[pos as int] == v);
                    } else {
                        let i = choose|i: int| 0 <= i < old_out.len() && old_out[i] == x;
                        if i < pos {
                            assert(out@[i] == x);
                        } else {
                            assert(out@[i + 1] == x);
                        }
                    }
                }
            }
        }
        t = t + 1;
    }
    assert(indices@.subrange(0, indices.len() as int) =~= indices@);
    out
}

/// Division of a polynomial by the vanishing polynomial of a coset.
pub trait VirgoPolyExt: Sized {
    /// The quotient of `self` by `vanish`.
    fn over_vanish_polynomial(self, vanish: &VanishingPolynomial) -> Self;
}

impl VirgoPolyExt for MultilinearPolynomial {
    /// For multilinear polynomials this leaves the polynomial as it is.
    fn over_vanish_polynomial(self, _vanish: &VanishingPolynomial) -> (r: Self)
        ensures
            r == self,
    {
        self
    }
}

} // verus!
