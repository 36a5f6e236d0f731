//! The root of unity from which the codes take their two-power domains.
//!
//! A domain source is an element `root` whose `2^log_order`-th power is one.
//! The domain of `2^k` points, for `k <= log_order`, is generated by
//! `root^(2^(log_order - k))`. The field's own source is `-1` of order two
//! (`LOG_ORDER`); a caller may pass any other element with the property, such
//! as `-1` at a larger `log_order`, whose smaller domains are then generated
//! by one.
use crate::fold::exp_power_of_2;
use crate::mersenne_61_mont::{fpow, lemma_view_range, p, Mersenne61Mont, LOG_ORDER};
use vstd::arithmetic::power2::{lemma2_to64, lemma_pow2_strictly_increases, pow2};
use vstd::prelude::*;

verus! {

broadcast use lemma_view_range;

/// The largest `log_order` a domain source may have.
pub const MAX_LOG_ORDER: usize = 30usize;

/// An element whose `2^log_order`-th power is one.
#[derive(Clone, Copy, Debug)]
pub struct RootOfUnity {
    root: Mersenne61Mont,
    log_order: usize,
}

impl RootOfUnity {
    /// The root.
    pub closed spec fn root_view(&self) -> int {
        self.root@
    }

    /// The base-two logarithm of the order it is a root of.
    pub closed spec fn log_order_view(&self) -> nat {
        self.log_order as nat
    }

    /// The generator of the domain of `2^k` points.
    pub open spec fn gen(&self, k: nat) -> int {
        fpow(self.root_view(), pow2((self.log_order_view() - k) as nat))
    }

    /// The root's `2^log_order`-th power is one, and `log_order` is at most
    /// `MAX_LOG_ORDER`.
    pub open spec fn wf(&self) -> bool {
        &&& self.log_order_view() <= MAX_LOG_ORDER
        &&& fpow(self.root_view(), pow2(self.log_order_view())) == 1
    }

    /// Every source is well formed.
    #[verifier::type_invariant]
    pub open spec fn inv(&self) -> bool {
        self.wf()
    }

    /// Every source is well formed.
    pub fn check_wf(&self)
        ensures
            self.wf(),
    {
        proof {
            use_type_invariant(self);
        }
    }

    /// The field's own source: `-1`, a primitive square root of one.
    pub fn of_field() -> (r: Self)
        ensures
            r.wf(),
            r.root_view() == p() - 1,
            r.log_order_view() == LOG_ORDER,
    {
        RootOfUnity { root: Mersenne61Mont::root_of_unity(), log_order: LOG_ORDER as usize }
    }

    /// The source `root` of order `2^log_order`, where `root` has that
    /// property and `log_order` is at most `MAX_LOG_ORDER`.
    pub fn new(root: Mersenne61Mont, log_order: usize) -> (r: Option<Self>)
        ensures
            r is Some <==> (log_order <= MAX_LOG_ORDER && fpow(root@, pow2(log_order as nat)) == 1),
            r matches Some(d) ==> d.root_view() == root@ && d.log_order_view() == log_order && d.wf(),
    {
        if log_order > MAX_LOG_ORDER {
            return None;
        }
        let e = exp_power_of_2(root, log_order);
        if e.equals(&Mersenne61Mont::one()) {
            Some(RootOfUnity { root, log_order })
        } else {
            None
        }
    }

    /// The base-two logarithm of the order.
    pub fn log_order(&self) -> (r: usize)
        ensures
            r == self.log_order_view(),
    {
        self.log_order
    }

    /// The generator of the domain of `2^k` points.
    pub fn generator(&self, k: usize) -> (r: Mersenne61Mont)
        requires
            k <= self.log_order_view(),
        ensures
            r@ == self.gen(k as nat),
    {
        exp_power_of_2(self.root, self.log_order - k)
    }

    /// The generator of the domain of `2^k` points has order dividing `2^k`.
    pub proof fn lemma_gen_order(&self, k: nat)
        requires
            self.wf(),
            k <= self.log_order_view(),
        ensures
            fpow(self.gen(k), pow2(k)) == 1,
    {
        crate::p3_fri::lemma_fpow_fpow(self.root_view(), pow2((self.log_order_view() - k) as nat), pow2(k));
        vstd::arithmetic::power2::lemma_pow2_adds((self.log_order_view() - k) as nat, k);
    }

    /// Domains of up to `2^log_order` points fit in a machine integer.
    pub proof fn lemma_order_bound(&self)
        requires
            self.wf(),
        ensures
            pow2(self.log_order_view()) <= pow2(MAX_LOG_ORDER as nat),
            pow2(MAX_LOG_ORDER as nat) == 0x4000_0000,
    {
        lemma2_to64();
        if self.log_order_view() < MAX_LOG_ORDER {
            lemma_pow2_strictly_increases(self.log_order_view(), MAX_LOG_ORDER as nat);
        }
    }
}

} // verus!
