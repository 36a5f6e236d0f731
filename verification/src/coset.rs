//! Multiplicative cosets `shift * <generator>` of a two-power size, with
//! evaluation of a polynomial on every element (`fft`), its inverse transform
//! (`ifft`), powers of a coset, and the vanishing polynomial of a coset.
use crate::domain::RootOfUnity;
use crate::fold::exp_u64;
use crate::mersenne_61_mont::{
    fadd, finv, fmul, fpow, fsub, lemma_fmul_comm, lemma_view_range, p, views, Mersenne61Mont,
};
use crate::merkle_tree::{lemma_log2_of, log2_of};
use crate::util::{is_power_of_two, log2_strict};
use crate::zeromorph_fri_v4::fsum;
use vstd::arithmetic::power2::pow2;
use vstd::prelude::*;

verus! {

broadcast use lemma_view_range;

/// The value at `x` of the polynomial with coefficients `c`, lowest degree first.
pub open spec fn poly_eval(c: Seq<int>, x: int) -> int
    decreases c.len(),
{
    if c.len() == 0 {
        0
    } else {
        fadd(c[0], fmul(x, poly_eval(c.drop_first(), x)))
    }
}

/// Element `i` of the coset `shift * <generator>`.
pub open spec fn coset_elem(shift: int, generator: int, i: nat) -> int {
    fmul(shift, fpow(generator, i))
}

/// The evaluations of the polynomial with coefficients `c` on the first `n`
/// elements of the coset.
pub open spec fn dft(c: Seq<int>, shift: int, generator: int, n: nat) -> Seq<int> {
    Seq::new(n, |i: int| poly_eval(c, coset_elem(shift, generator, i as nat)))
}

/// The inverse transform of the values `e` on a coset of `n` elements:
/// coefficient `k` is `n^-1 * sum_i e[i] * x_i^-k`.
pub open spec fn idft(e: Seq<int>, shift: int, generator: int, n: nat) -> Seq<int> {
    Seq::new(
        n,
        |k: int|
            fmul(
                finv(n as int % p()),
                fsum(
                    Seq::new(
                        n,
                        |i: int| fmul(e[i], fpow(finv(coset_elem(shift, generator, i as nat)), k as nat)),
                    ),
                ),
            ),
    )
}

/// A coset of a two-power multiplicative subgroup.
#[derive(Clone, Copy, Debug)]
pub struct Coset {
    size: usize,
    shift: Mersenne61Mont,
    generator: Mersenne61Mont,
}

impl Coset {
    /// The number of elements.
    pub closed spec fn size_view(&self) -> nat {
        self.size as nat
    }

    /// The number of elements is a machine integer.
    pub proof fn lemma_size_bound(&self)
        ensures
            self.size_view() <= usize::MAX,
    {
    }

    /// The shift.
    pub closed spec fn shift_view(&self) -> int {
        self.shift@
    }

    /// The generator of the subgroup.
    pub closed spec fn generator_view(&self) -> int {
        self.generator@
    }

    /// Element `i` of the coset.
    pub open spec fn elem(&self, i: nat) -> int {
        coset_elem(self.shift_view(), self.generator_view(), i)
    }

    /// The coset of `size` elements shifted by `shift`, generated by the
    /// generator that the domain source `d` gives for `size` points.
    pub fn new(size: usize, shift: Mersenne61Mont, d: &RootOfUnity) -> (r: Self)
        requires
            is_power_of_two(size as int),
            size <= pow2(d.log_order_view()),
        ensures
            r.size_view() == size,
            r.shift_view() == shift@,
            pow2(log2_of(size as int)) == size,
            log2_of(size as int) <= d.log_order_view(),
            r.generator_view() == d.gen(log2_of(size as int)),
    {
        let log_size = log2_strict(size);
        proof {
            lemma_log2_of(size as int, log_size as nat);
            if log_size > d.log_order_view() {
                vstd::arithmetic::power2::lemma_pow2_strictly_increases(d.log_order_view(), log_size as nat);
            }
        }
        let generator = d.generator(log_size);
        Coset { size, shift, generator }
    }

    /// The number of elements.
    pub fn size(&self) -> (r: usize)
        ensures
            r == self.size_view(),
    {
        self.size
    }

    /// Element `i`: `shift * generator^i`.
    pub fn element_at(&self, i: usize) -> (r: Mersenne61Mont)
        ensures
            r@ == self.elem(i as nat),
    {
        let g = exp_u64(&self.generator, i as u64);
        self.shift.mul(g)
    }

    /// The inverse of element `i` (zero when the element is zero).
    pub fn element_inv_at(&self, i: usize) -> (r: Mersenne61Mont)
        ensures
            r@ == finv(self.elem(i as nat)),
    {
        let e = self.element_at(i);
        if e.iszero() {
            proof {
                lemma_finv_zero();
            }
            e
        } else {
            e.inverse()
        }
    }

    /// The coset of `index`-th powers: `size / index` elements, shift and
    /// generator raised to `index`.
    pub fn pow(&self, index: usize) -> (r: Self)
        requires
            index > 0,
        ensures
            r.size_view() == self.size_view() / (index as nat),
            r.shift_view() == fpow(self.shift_view(), index as nat),
            r.generator_view() == fpow(self.generator_view(), index as nat),
    {
        Coset {
            size: self.size / index,
            shift: exp_u64(&self.shift, index as u64),
            generator: exp_u64(&self.generator, index as u64),
        }
    }

    /// The values on the coset of the polynomial with coefficients `coeffs`.
    pub fn fft(&self, coeffs: Vec<Mersenne61Mont>) -> (r: Vec<Mersenne61Mont>)
        ensures
            views(r@) == dft(views(coeffs@), self.shift_view(), self.generator_view(), self.size_view()),
    {
        let ghost c = views(coeffs@);
        let mut out: Vec<Mersenne61Mont> = Vec::new();
        let mut i: usize = 0;
        while i < self.size
            invariant
                i <= self.size,
                c == views(coeffs@),
                views(out@) == dft(c, self.shift_view(), self.generator_view(), i as nat),
            decreases self.size - i,
        {
            let x = self.element_at(i);
            let v = horner(&coeffs, x);
            let ghost before = views(out@);
            out.push(v);
            assert(views(out@) =~= before.push(v@));
            assert forall|j: int| 0 <= j < i + 1 implies #[trigger] views(out@)[j] == dft(
                c,
                self.shift_view(),
                self.generator_view(),
                (i + 1) as nat,
            )[j] by {
                if j < i {
                    assert(before[j] == dft(c, self.shift_view(), self.generator_view(), i as nat)[j]);
                }
            }
            assert(views(out@) =~= dft(c, self.shift_view(), self.generator_view(), (i + 1) as nat));
            i = i + 1;
        }
        out
    }

    /// The coefficients of the polynomial whose values on the coset are
    /// `evals`, by the inverse transform.
    pub fn ifft(&self, evals: Vec<Mersenne61Mont>) -> (r: Vec<Mersenne61Mont>)
        requires
            evals.len() == self.size_view(),
            0 < self.size_view() < p(),
        ensures
            views(r@) == idft(views(evals@), self.shift_view(), self.generator_view(), self.size_view()),
    {
        let n = self.size;
        let ghost e = views(evals@);
        let ghost sh = self.shift_view();
        let ghost g = self.generator_view();
        let mut invs: Vec<Mersenne61Mont> = Vec::new();
        let mut pw: Vec<Mersenne61Mont> = Vec::new();
        let mut i: usize = 0;
        while i < n
            invariant
                n == self.size,
                i <= n,
                sh == self.shift_view(),
                g == self.generator_view(),
                invs@.len() == i,
                pw@.len() == i,
                forall|j: int| 0 <= j < i ==> #[trigger] invs@[j]@ == finv(coset_elem(sh, g, j as nat)),
                forall|j: int| 0 <= j < i ==> #[trigger] pw@[j]@ == 1,
            decreases n - i,
        {
            invs.push(self.element_inv_at(i));
            pw.push(Mersenne61Mont::one());
            i = i + 1;
        }
        let n_inv = Mersenne61Mont::from_int(n as u64).inverse();
        let mut out: Vec<Mersenne61Mont> = Vec::new();
        let mut k: usize = 0;
        while k < n
            invariant
                n == self.size,
                n == evals.len(),
                e == views(evals@),
                sh == self.shift_view(),
                g == self.generator_view(),
                n_inv@ == finv(n as int % p()),
                k <= n,
                invs@.len() == n,
                pw@.len() == n,
                forall|j: int| 0 <= j < n ==> #[trigger] invs@[j]@ == finv(coset_elem(sh, g, j as nat)),
                forall|j: int| 0 <= j < n ==> #[trigger] pw@[j]@ == fpow(invs@[j]@, k as nat),
                views(out@) == idft(e, sh, g, n as nat).subrange(0, k as int),
            decreases n - k,
        {
            let ghost terms = Seq::new(
                n as nat,
                |j: int| fmul(e[j], fpow(finv(coset_elem(sh, g, j as nat)), k as nat)),
            );
            let mut acc = Mersenne61Mont::zero();
            let mut j: usize = 0;
            while j < n
                invariant
                    n == evals.len(),
                    e == views(evals@),
                    j <= n,
                    pw@.len() == n,
                    invs@.len() == n,
                    forall|m: int| 0 <= m < n ==> #[trigger] invs@[m]@ == finv(coset_elem(sh, g, m as nat)),
                    forall|m: int| 0 <= m < n ==> #[trigger] pw@[m]@ == fpow(invs@[m]@, k as nat),
                    terms == Seq::new(
                        n as nat,
                        |m: int| fmul(e[m], fpow(finv(coset_elem(sh, g, m as nat)), k as nat)),
                    ),
                    acc@ == fsum(terms.subrange(0, j as int)),
                decreases n - j,
            {
                let t = evals[j].mul(pw[j]);
                assert(terms.subrange(0, j + 1).drop_last() =~= terms.subrange(0, j as int));
                acc = acc.add(t);
                j = j + 1;
            }
            assert(terms.subrange(0, n as int) =~= terms);
            let c = n_inv.mul(acc);
            let ghost before = views(out@);
            out.push(c);
            assert(idft(e, sh, g, n as nat)[k as int] == fmul(finv(n as int % p()), fsum(terms))) by {
                assert(terms =~= Seq::new(
                    n as nat,
                    |i: int| fmul(e[i], fpow(finv(coset_elem(sh, g, i as nat)), k as nat)),
                ));
            }
            assert(views(out@) =~= before.push(c@));
            assert(views(out@) =~= idft(e, sh, g, n as nat).subrange(0, k + 1));
            let mut m: usize = 0;
            while m < n
                invariant
                    m <= n,
                    pw@.len() == n,
                    invs@.len() == n,
                    forall|q: int| 0 <= q < m ==> #[trigger] pw@[q]@ == fpow(invs@[q]@, (k + 1) as nat),
                    forall|q: int| m <= q < n ==> #[trigger] pw@[q]@ == fpow(invs@[q]@, k as nat),
                decreases n - m,
            {
                let nv = invs[m].mul(pw[m]);
                pw.set(m, nv);
                m = m + 1;
            }
            k = k + 1;
        }
        assert(idft(e, sh, g, n as nat).subrange(0, n as int) =~= idft(e, sh, g, n as nat));
        out
    }
}

/// Zero has no inverse, so its inverse is zero.
pub proof fn lemma_finv_zero()
    ensures
        finv(0) == 0,
{
    assert forall|x: int| 0 <= x < p() implies #[trigger] fmul(0, x) != 1 by {
        assert(0 * x == 0);
    }
}

/// The value of a polynomial at `x` by Horner's rule.
pub fn horner(coeffs: &Vec<Mersenne61Mont>, x: Mersenne61Mont) -> (r: Mersenne61Mont)
    ensures
        r@ == poly_eval(views(coeffs@), x@),
{
    let ghost c = views(coeffs@);
    let mut acc = Mersenne61Mont::zero();
    let mut k = coeffs.len();
    assert(c.subrange(k as int, c.len() as int).len() == 0);
    while k > 0
        invariant
            k <= coeffs.len(),
            c == views(coeffs@),
            acc@ == poly_eval(c.subrange(k as int, c.len() as int), x@),
        decreases k,
    {
        k = k - 1;
        let ghost tail = c.subrange(k as int, c.len() as int);
        assert(tail.drop_first() =~= c.subrange(k + 1, c.len() as int));
        proof {
            lemma_fmul_comm(acc@, x@);
        }
        acc = coeffs[k].add(x.mul(acc));
    }
    assert(c.subrange(0, c.len() as int) =~= c);
    acc
}

/// The vanishing polynomial `x^n - shift^n` of a coset of `n` elements.
#[derive(Clone, Debug)]
pub struct VanishingPolynomial {
    degree: usize,
    shift_pow: Mersenne61Mont,
}

impl VanishingPolynomial {
    /// The number of elements of the coset.
    pub closed spec fn degree_view(&self) -> nat {
        self.degree as nat
    }

    /// The coset's shift raised to the number of elements.
    pub closed spec fn shift_pow_view(&self) -> int {
        self.shift_pow@
    }

    /// The vanishing polynomial of `coset`.
    pub fn new(coset: &Coset) -> (r: Self)
        ensures
            r.degree_view() == coset.size_view(),
            r.shift_pow_view() == fpow(coset.shift_view(), coset.size_view()),
    {
        VanishingPolynomial {
            degree: coset.size,
            shift_pow: exp_u64(&coset.shift, coset.size as u64),
        }
    }

    /// The value `x^n - shift^n`.
    pub fn evaluation_at(&self, x: Mersenne61Mont) -> (r: Mersenne61Mont)
        ensures
            r@ == fsub(fpow(x@, self.degree_view()), self.shift_pow_view()),
    {
        exp_u64(&x, self.degree as u64).sub(self.shift_pow)
    }
}

} // verus!
