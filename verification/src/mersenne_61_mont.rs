//! The prime field of integers modulo the Mersenne prime p = 2^61 - 1.
//!
//! An element is stored by its canonical representative in [0, p); its view is
//! that representative as a mathematical integer, and every operation is
//! specified by the corresponding operation on integers reduced modulo p.
use vstd::arithmetic::div_mod::*;
use vstd::arithmetic::mul::*;
use vstd::arithmetic::power2::pow2;
use vstd::prelude::*;

verus! {

/// The field modulus p = 2^61 - 1.
pub const MODULUS: u64 = 2305843009213693951u64;

/// Half of p + 1, the inverse of two.
pub const INVERSE_OF_TWO: u64 = 1152921504606846976u64;

/// The base-two logarithm of the order of the root of unity the field advertises.
pub const LOG_ORDER: u64 = 1u64;

/// The field modulus as a mathematical integer.
pub open spec fn p() -> int {
    2305843009213693951int
}

/// The bytes read as a big-endian number.
pub open spec fn be_value(b: Seq<u8>) -> int
    decreases b.len(),
{
    if b.len() == 0 {
        0
    } else {
        be_value(b.drop_last()) * 256 + b.last()
    }
}

/// Reading one more byte commutes with reduction modulo p.
proof fn lemma_be_step_mod_p(a: int, b: int)
    ensures
        ((a % p()) * 256 + b) % p() == (a * 256 + b) % p(),
{
    lemma_mul_mod_noop_left(a, 256, p());
    lemma_add_mod_noop(a * 256, b, p());
    lemma_add_mod_noop((a % p()) * 256, b, p());
    lemma_mod_twice((a % p()) * 256, p());
}

/// A big-endian number is non-negative.
proof fn lemma_be_value_nonneg(b: Seq<u8>)
    ensures
        be_value(b) >= 0,
    decreases b.len(),
{
    if b.len() > 0 {
        lemma_be_value_nonneg(b.drop_last());
    }
}

/// Field addition on canonical integers.
pub open spec fn fadd(a: int, b: int) -> int {
    (a + b) % p()
}

/// Field subtraction on canonical integers.
pub open spec fn fsub(a: int, b: int) -> int {
    (a - b) % p()
}

/// Field negation on canonical integers.
pub open spec fn fneg(a: int) -> int {
    (-a) % p()
}

/// Field multiplication on canonical integers.
pub open spec fn fmul(a: int, b: int) -> int {
    (a * b) % p()
}

/// `b` is a multiplicative inverse of `a`.
pub open spec fn is_inverse(a: int, b: int) -> bool {
    fmul(a, b) == 1
}

/// `a` has a multiplicative inverse among the canonical integers.
pub open spec fn has_inverse(a: int) -> bool {
    exists|x: int| 0 <= x < p() && #[trigger] fmul(a, x) == 1
}

/// The eight little-endian bytes of a canonical representative.
pub open spec fn le_bytes(v: int) -> Seq<u8> {
    Seq::new(8, |i: int| ((v as u64) >> ((8 * i) as u64)) as u8)
}

/// The concatenated little-endian bytes of a sequence of elements.
pub open spec fn le_bytes_seq(s: Seq<int>) -> Seq<u8>
    decreases s.len(),
{
    if s.len() == 0 {
        Seq::empty()
    } else {
        le_bytes_seq(s.drop_last()) + le_bytes(s.last())
    }
}

/// The inverse of `a` when one exists, and zero otherwise.
pub open spec fn finv(a: int) -> int {
    if has_inverse(a) {
        choose|x: int| 0 <= x < p() && #[trigger] fmul(a, x) == 1
    } else {
        0
    }
}

/// Field division: multiplication by the inverse.
pub open spec fn fdiv(a: int, b: int) -> int {
    fmul(a, finv(b))
}

/// `a` raised to the natural power `n`, in the field.
pub open spec fn fpow(a: int, n: nat) -> int
    decreases n,
{
    if n == 0 {
        1
    } else {
        fmul(a, fpow(a, (n - 1) as nat))
    }
}

/// Inverses are unique: two canonical inverses of the same element agree.
pub proof fn lemma_inverse_unique(a: int, x: int, y: int)
    requires
        0 <= x < p(),
        0 <= y < p(),
        fmul(a, x) == 1,
        fmul(a, y) == 1,
    ensures
        x == y,
{
    let m = p();
    // x = x * (a * y) = (x * a) * y = y (mod p)
    lemma_mul_mod_noop_right(x, a * y, m);
    assert(x * (a * y) == (a * x) * y) by (nonlinear_arith);
    lemma_mul_mod_noop_left(a * x, y, m);
    lemma_small_mod(x as nat, m as nat);
    lemma_small_mod(y as nat, m as nat);
    assert((x * (a * y)) % m == (x * 1) % m);
}


/// Field addition is commutative.
pub proof fn lemma_fadd_comm(a: int, b: int)
    ensures
        fadd(a, b) == fadd(b, a),
{
}

/// Field addition is associative.
#[verifier::spinoff_prover]
pub proof fn lemma_fadd_assoc(a: int, b: int, c: int)
    ensures
        fadd(fadd(a, b), c) == fadd(a, fadd(b, c)),
{
    let m = p();
    assert(((a + b) % m + c) % m == (a + b + c) % m) by {
        lemma_add_mod_noop_right(c, a + b, m);
    }
    assert((a + (b + c) % m) % m == (a + (b + c)) % m) by {
        lemma_add_mod_noop_right(a, b + c, m);
    }
    assert(a + b + c == a + (b + c));
}

/// Field multiplication is commutative.
pub proof fn lemma_fmul_comm(a: int, b: int)
    ensures
        fmul(a, b) == fmul(b, a),
{
    lemma_mul_is_commutative(a, b);
}

/// Field multiplication is associative.
pub proof fn lemma_fmul_assoc(a: int, b: int, c: int)
    ensures
        fmul(fmul(a, b), c) == fmul(a, fmul(b, c)),
{
    lemma_mul_mod_noop_left(a * b, c, p());
    lemma_mul_mod_noop_right(a, b * c, p());
    lemma_mul_is_associative(a, b, c);
}

/// Field multiplication distributes over field addition.
pub proof fn lemma_fmul_distrib(a: int, b: int, c: int)
    ensures
        fmul(a, fadd(b, c)) == fadd(fmul(a, b), fmul(a, c)),
{
    lemma_mul_mod_noop_right(a, b + c, p());
    lemma_mul_is_distributive_add(a, b, c);
    lemma_add_mod_noop(a * b, a * c, p());
}

/// Field multiplication distributes over field subtraction.
pub proof fn lemma_fmul_distrib_sub(a: int, b: int, c: int)
    ensures
        fmul(a, fsub(b, c)) == fsub(fmul(a, b), fmul(a, c)),
{
    lemma_mul_mod_noop_right(a, b - c, p());
    lemma_mul_is_distributive_sub(a, b, c);
    lemma_sub_mod_noop(a * b, a * c, p());
}

/// One is the multiplicative identity and zero the additive one, on canonical integers.
pub proof fn lemma_field_identities(a: int)
    requires
        0 <= a < p(),
    ensures
        fmul(a, 1) == a,
        fmul(1, a) == a,
        fadd(a, 0) == a,
        fadd(0, a) == a,
        fsub(a, 0) == a,
        fsub(a, a) == 0,
        fmul(a, 0) == 0,
{
    lemma_small_mod(a as nat, p() as nat);
}

/// Subtracting is adding the negation.
pub proof fn lemma_fsub_is_add_neg(a: int, b: int)
    ensures
        fsub(a, b) == fadd(a, fneg(b)),
        fadd(fsub(a, b), b) == a % p(),
{
    lemma_add_mod_noop_right(a, -b, p());
    lemma_add_mod_noop(a - b, b, p());
    lemma_mod_twice(b, p());
    lemma_add_mod_noop(a - b, b, p());
}

/// Multiplying by the representative of minus one negates.
pub proof fn lemma_fmul_minus_one(a: int)
    ensures
        fmul(p() - 1, a) == fneg(a),
{
    assert((p() - 1) * a == a * p() + (-a)) by (nonlinear_arith);
    lemma_mod_multiples_vanish(a, -a, p());
}

/// The powers of an element multiply by adding exponents.
pub proof fn lemma_fpow_add(a: int, m: nat, n: nat)
    ensures
        fpow(a, m + n) == fmul(fpow(a, m), fpow(a, n)),
    decreases m,
{
    if m == 0 {
        assert(fpow(a, n) == fpow(a, n) % p()) by {
            lemma_fpow_range(a, n);
            lemma_small_mod(fpow(a, n) as nat, p() as nat);
        }
    } else {
        lemma_fpow_add(a, (m - 1) as nat, n);
        assert((m + n - 1) as nat == ((m - 1) as nat + n) as nat);
        lemma_fmul_assoc(a, fpow(a, (m - 1) as nat), fpow(a, n));
    }
}

/// Powers are canonical.
pub proof fn lemma_fpow_range(a: int, n: nat)
    ensures
        0 <= fpow(a, n) < p(),
{
    if n > 0 {
        lemma_mod_bound(a * fpow(a, (n - 1) as nat), p());
    }
}

/// Squaring doubles the exponent.
pub proof fn lemma_fpow_double(a: int, n: nat)
    ensures
        fpow(a, 2 * n) == fmul(fpow(a, n), fpow(a, n)),
{
    lemma_fpow_add(a, n, n);
}

/// The integer whose little-endian bytes are the first eight of `b`.
pub open spec fn le_u64_value(b: Seq<u8>) -> int {
    b[0] + 256 * b[1] + 65536 * b[2] + 16777216 * b[3] + 4294967296 * b[4] + 1099511627776 * b[5]
        + 281474976710656 * b[6] + 72057594037927936 * b[7]
}

/// Eight bytes from the thread-local random generator, by
/// `rand::random::<[u8; 8]>()`. Nothing is claimed of the bytes: they come
/// from chance.
#[verifier::external_body]
fn random_bytes() -> (r: [u8; 8]) {
    rand::random::<[u8; 8]>()
}

/// An element of the field of integers modulo 2^61 - 1.
#[derive(Clone, Copy, PartialEq, Eq, Structural, Debug, Hash)]
pub struct Mersenne61Mont {
    value: u64,
}

impl View for Mersenne61Mont {
    type V = int;

    /// The element as an integer modulo `p`.
    closed spec fn view(&self) -> int {
        (self.value as int) % p()
    }
}

/// The views of a sequence of field elements.
pub open spec fn views(s: Seq<Mersenne61Mont>) -> Seq<int> {
    s.map_values(|x: Mersenne61Mont| x@)
}

/// Every element views as a canonical integer.
pub broadcast proof fn lemma_view_range(a: Mersenne61Mont)
    ensures
        0 <= #[trigger] a@ < p(),
{
}

/// One step of the extended Euclidean algorithm keeps `r == a * s (mod p)`.
proof fn lemma_euclid_step(a: int, s0: int, s1: int, q: int, s2: int, r0: int, r1: int, r2: int)
    requires
        (a * s0) % p() == (r0 as int) % p(),
        (a * s1) % p() == (r1 as int) % p(),
        s2 % p() == (s0 - q * s1) % p(),
        r2 == r0 - q * r1,
    ensures
        (a * s2) % p() == r2 % p(),
{
    let m = p();
    lemma_mul_mod_noop_right(a, s2, m);
    lemma_mul_mod_noop_right(a, s0 - q * s1, m);
    assert(a * (s0 - q * s1) == a * s0 - q * (a * s1)) by (nonlinear_arith);
    lemma_sub_mod_noop(a * s0, q * (a * s1), m);
    lemma_mul_mod_noop_right(q, a * s1, m);
    lemma_mul_mod_noop_right(q, r1, m);
    lemma_sub_mod_noop(r0, q * r1, m);
}

/// A common divisor greater than one of `a` and `p` rules out an inverse of `a`.
proof fn lemma_no_inverse(a: int, x: int, g: int, u: int, v: int)
    requires
        g > 1,
        a == u * g,
        p() == v * g,
    ensures
        fmul(a, x) != 1,
{
    let m = p();
    if (a * x) % m == 1 {
        lemma_fundamental_div_mod(a * x, m);
        let k = (a * x) / m;
        assert(a * x == m * k + 1);
        assert(u * g * x == v * g * k + 1);
        let t = u * x - v * k;
        assert(g * t == 1) by (nonlinear_arith)
            requires
                u * g * x == v * g * k + 1,
                t == u * x - v * k,
        ;
        assert(false) by (nonlinear_arith)
            requires
                g * t == 1,
                g > 1,
        ;
    }
}

impl Mersenne61Mont {
    /// The stored value is below the modulus.
    #[verifier::type_invariant]
    spec fn canonical(self) -> bool {
        self.value < MODULUS
    }

    /// The element is its canonical representative, as every element built by
    /// this module is.
    pub open spec fn wf(self) -> bool {
        0 <= self@ < p()
    }

    /// The element reduced from an integer.
    pub fn from_int(x: u64) -> (r: Self)
        ensures
            r@ == (x as int) % p(),
            r.wf(),
    {
        Mersenne61Mont { value: x % MODULUS }
    }

    /// The additive identity.
    pub fn zero() -> (r: Self)
        ensures
            r@ == 0,
            r.wf(),
    {
        Mersenne61Mont { value: 0 }
    }

    /// The multiplicative identity.
    pub fn one() -> (r: Self)
        ensures
            r@ == 1,
            r.wf(),
    {
        Mersenne61Mont { value: 1 }
    }

    /// The canonical representative as an integer.
    pub fn as_canonical_u64(&self) -> (r: u64)
        ensures
            r == self@,
            r < MODULUS,
            self.wf(),
    {
        proof {
            use_type_invariant(self);
        }
        self.value
    }

    /// Equality of field elements.
    pub fn equals(&self, other: &Self) -> (r: bool)
        ensures
            r == (self@ == other@),
    {
        proof {
            use_type_invariant(self);
            use_type_invariant(other);
            lemma_small_mod(self.value as nat, p() as nat);
            lemma_small_mod(other.value as nat, p() as nat);
        }
        self.value == other.value
    }

    /// The canonical little-endian byte representation.
    pub fn to_bytes(&self) -> (r: Vec<u8>)
        ensures
            r@ == le_bytes(self@),
    {
        proof {
            use_type_invariant(self);
            lemma_small_mod(self.value as nat, p() as nat);
        }
        let mut out: Vec<u8> = Vec::new();
        for i in 0..8u64
            invariant
                out@.len() == i,
                self@ == self.value as int,
                forall|j: int| 0 <= j < i ==> out@[j] == le_bytes(self@)[j],
        {
            out.push((self.value >> (8 * i)) as u8);
        }
        assert(out@ =~= le_bytes(self@));
        out
    }

    /// Field addition.
    pub fn add(self, other: Self) -> (r: Self)
        ensures
            r@ == fadd(self@, other@),
            r.wf(),
    {
        proof {
            use_type_invariant(&self);
            use_type_invariant(&other);
        }
        let s = self.value + other.value;
        if s >= MODULUS {
            proof {
                lemma_mod_sub_multiples_vanish(s as int, p());
                lemma_small_mod((s - MODULUS) as nat, p() as nat);
            }
            Mersenne61Mont { value: s - MODULUS }
        } else {
            proof {
                lemma_small_mod(s as nat, p() as nat);
            }
            Mersenne61Mont { value: s }
        }
    }

    /// Field subtraction.
    pub fn sub(self, other: Self) -> (r: Self)
        ensures
            r@ == fsub(self@, other@),
            r.wf(),
    {
        proof {
            use_type_invariant(&self);
            use_type_invariant(&other);
        }
        if self.value >= other.value {
            proof {
                lemma_small_mod((self.value - other.value) as nat, p() as nat);
            }
            Mersenne61Mont { value: self.value - other.value }
        } else {
            let d = MODULUS - other.value + self.value;
            proof {
                lemma_small_mod(d as nat, p() as nat);
                lemma_mod_add_multiples_vanish(self@ - other@, p());
            }
            Mersenne61Mont { value: d }
        }
    }

    /// Field negation.
    pub fn neg(self) -> (r: Self)
        ensures
            r@ == fneg(self@),
            r.wf(),
    {
        proof {
            use_type_invariant(&self);
        }
        if self.value == 0 {
            Mersenne61Mont { value: 0 }
        } else {
            let d = MODULUS - self.value;
            proof {
                lemma_small_mod(d as nat, p() as nat);
                lemma_mod_add_multiples_vanish(-self@, p());
            }
            Mersenne61Mont { value: d }
        }
    }

    /// Field multiplication.
    pub fn mul(self, other: Self) -> (r: Self)
        ensures
            r@ == fmul(self@, other@),
            r.wf(),
    {
        proof {
            use_type_invariant(&self);
            use_type_invariant(&other);
            lemma_mul_upper_bound(self@, p(), other@, p());
            lemma_mul_nonnegative(self@, other@);
        }
        let prod: u128 = (self.value as u128) * (other.value as u128);
        let red: u128 = prod % (MODULUS as u128);
        Mersenne61Mont { value: red as u64 }
    }

    /// The square of the element.
    pub fn square(self) -> (r: Self)
        ensures
            r@ == fmul(self@, self@),
            r.wf(),
    {
        self.mul(self)
    }

    /// The element doubled.
    pub fn double(self) -> (r: Self)
        ensures
            r@ == fadd(self@, self@),
            r.wf(),
    {
        self.add(self)
    }

    /// The element is zero.
    pub fn iszero(&self) -> (r: bool)
        ensures
            r == (self@ == 0),
    {
        proof {
            use_type_invariant(self);
            lemma_small_mod(self.value as nat, p() as nat);
        }
        self.value == 0
    }

    /// The multiplicative inverse, computed by the extended Euclidean algorithm.
    /// Whenever `self` has an inverse the result is that inverse; otherwise the
    /// result is zero.
    pub fn inverse(&self) -> (r: Self)
        requires
            self@ != 0,
        ensures
            r@ == finv(self@),
            has_inverse(self@) ==> is_inverse(self@, r@),
            r.wf(),
    {
        proof {
            use_type_invariant(self);
        }
        let a: u64 = self.value;
        let mut r0: u64 = MODULUS;
        let mut r1: u64 = a;
        let mut s0: u64 = 0;
        let mut s1: u64 = 1;
        let ghost mut u0: int = 0;
        let ghost mut u1: int = 1;
        let ghost mut v0: int = 1;
        let ghost mut v1: int = 0;
        proof {
            lemma_small_mod(a as nat, p() as nat);
            lemma_mod_self_0(p());
        }
        while r1 != 0
            invariant
                0 < a < MODULUS,
                0 < r0 <= MODULUS,
                r1 < r0,
                s0 < MODULUS,
                s1 < MODULUS,
                (a * s0) % p() == (r0 as int) % p(),
                (a * s1) % p() == (r1 as int) % p(),
                a == u0 * r0 + u1 * r1,
                p() == v0 * r0 + v1 * r1,
            decreases r1,
        {
            let q: u64 = r0 / r1;
            let r2: u64 = r0 % r1;
            proof {
                lemma_fundamental_div_mod(r0 as int, r1 as int);
                lemma_mul_upper_bound(q as int, p(), s1 as int, p());
                lemma_mul_nonnegative(q as int, s1 as int);
            }
            let qs: u64 = ((q as u128 * s1 as u128) % (MODULUS as u128)) as u64;
            let s2: u64 = if s0 >= qs {
                s0 - qs
            } else {
                s0 + (MODULUS - qs)
            };
            proof {
                let m = p();
                assert(r2 == r0 - q * r1);
                lemma_small_mod(s2 as nat, m as nat);
                assert(qs == (q * s1) % m);
                if s0 >= qs {
                    lemma_sub_mod_noop(s0 as int, q * s1, m);
                    lemma_small_mod(s0 as nat, m as nat);
                } else {
                    lemma_mod_add_multiples_vanish(s0 - qs, m);
                    lemma_sub_mod_noop(s0 as int, q * s1, m);
                    lemma_small_mod(s0 as nat, m as nat);
                }
                assert((s2 as int) % m == (s0 - q * s1) % m);
                lemma_euclid_step(a as int, s0 as int, s1 as int, q as int, s2 as int, r0 as int, r1 as int, r2 as int);
                let nu0 = u0 * q + u1;
                let nv0 = v0 * q + v1;
                assert(a == nu0 * r1 + u0 * r2) by (nonlinear_arith)
                    requires
                        a == u0 * r0 + u1 * r1,
                        nu0 == u0 * q + u1,
                        r2 == r0 - q * r1,
                ;
                assert(m == nv0 * r1 + v0 * r2) by (nonlinear_arith)
                    requires
                        m == v0 * r0 + v1 * r1,
                        nv0 == v0 * q + v1,
                        r2 == r0 - q * r1,
                ;
                u1 = u0;
                u0 = nu0;
                v1 = v0;
                v0 = nv0;
            }
            r0 = r1;
            r1 = r2;
            s0 = s1;
            s1 = s2;
        }
        if r0 == 1 {
            proof {
                lemma_small_mod(1nat, p() as nat);
                lemma_small_mod(s0 as nat, p() as nat);
                assert(fmul(a as int, s0 as int) == 1);
                assert(has_inverse(a as int));
                let c = choose|x: int| 0 <= x < p() && #[trigger] fmul(a as int, x) == 1;
                lemma_inverse_unique(a as int, c, s0 as int);
            }
            Mersenne61Mont { value: s0 }
        } else {
            proof {
                assert(a == u0 * r0);
                assert(p() == v0 * r0);
                assert forall|x: int| 0 <= x < p() implies #[trigger] fmul(a as int, x) != 1 by {
                    lemma_no_inverse(a as int, x, r0 as int, u0, v0);
                }
            }
            Mersenne61Mont { value: 0 }
        }
    }

    /// Field division by a nonzero element.
    pub fn div(self, other: Self) -> (r: Self)
        requires
            other@ != 0,
        ensures
            r@ == fdiv(self@, other@),
            r.wf(),
    {
        self.mul(other.inverse())
    }

    /// A primitive `2^LOG_ORDER`-th root of unity: minus one.
    pub fn root_of_unity() -> (r: Self)
        ensures
            r@ == p() - 1,
            r.wf(),
            fpow(r@, pow2(LOG_ORDER as nat)) == 1,
            fpow(r@, pow2((LOG_ORDER - 1) as nat)) != 1,
    {
        proof {
            vstd::arithmetic::power2::lemma2_to64();
            lemma_fmul_minus_one(p() - 1);
            lemma_small_mod((p() - 1) as nat, p() as nat);
            assert(fpow(p() - 1, 0) == 1);
            assert(fpow(p() - 1, 1) == fmul(p() - 1, 1));
            assert(fpow(p() - 1, 2) == fmul(p() - 1, fpow(p() - 1, 1)));
            assert(fneg(p() - 1) == 1);
        }
        Mersenne61Mont { value: MODULUS - 1 }
    }

    /// The multiplicative inverse of two, (p + 1) / 2.
    pub fn inverse_2() -> (r: Self)
        ensures
            r@ == (p() + 1) / 2,
            is_inverse(2, r@),
            r.wf(),
    {
        assert(fmul(2, 1152921504606846976) == 1);
        Mersenne61Mont { value: INVERSE_OF_TWO }
    }

    /// The element of a 32-byte digest: the digest read as one big-endian
    /// number, reduced modulo p.
    pub fn from_hash(hash: [u8; 32]) -> (r: Self)
        ensures
            r@ == be_value(hash@) % p(),
            r.wf(),
    {
        let mut num: u64 = 0;
        let mut i: usize = 0;
        while i < 32
            invariant
                i <= 32,
                num as int == be_value(hash@.subrange(0, i as int)) % p(),
            decreases 32 - i,
        {
            let b = hash[i];
            let ghost pre = hash@.subrange(0, i as int);
            assert(hash@.subrange(0, i + 1).drop_last() =~= pre);
            proof {
                lemma_be_value_nonneg(pre);
                lemma_be_step_mod_p(be_value(pre), b as int);
            }
            let wide: u128 = (num as u128) * 256u128 + (b as u128);
            num = (wide % (MODULUS as u128)) as u64;
            i = i + 1;
        }
        assert(hash@.subrange(0, 32) =~= hash@);
        Self::from_int(num)
    }

    /// The element reduced from eight little-endian bytes.
    pub fn from_le_bytes8(bytes: [u8; 8]) -> (r: Self)
        ensures
            r@ == le_u64_value(bytes@) % p(),
            r.wf(),
    {
        let x: u64 = bytes[0] as u64 + 256 * (bytes[1] as u64) + 65536 * (bytes[2] as u64) + 16777216
            * (bytes[3] as u64) + 4294967296 * (bytes[4] as u64) + 1099511627776 * (bytes[5] as u64)
            + 281474976710656 * (bytes[6] as u64) + 72057594037927936 * (bytes[7] as u64);
        Self::from_int(x)
    }

    /// A random element: eight random bytes read as a little-endian integer
    /// and reduced.
    pub fn random_element() -> (r: Self)
        ensures
            r.wf(),
            exists|b: Seq<u8>| b.len() == 8 && r@ == le_u64_value(b) % p(),
    {
        let bytes = random_bytes();
        let r = Self::from_le_bytes8(bytes);
        assert(bytes@.len() == 8 && r@ == le_u64_value(bytes@) % p());
        r
    }
}

/// A power of an element some larger power of which is one is not zero.
pub proof fn lemma_fpow_nonzero(g: int, e: nat, n: nat)
    requires
        e <= n,
        fpow(g, n) == 1,
    ensures
        fpow(g, e) != 0,
{
    lemma_fpow_add(g, e, (n - e) as nat);
    if fpow(g, e) == 0 {
        assert(fmul(0, fpow(g, (n - e) as nat)) == 0);
    }
}

} // verus!
