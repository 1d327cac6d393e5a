//! The KoalaBear prime field `GF(p)` with `p = 2^31 - 2^24 + 1`.
//!
//! Elements are held by their canonical representative in `[0, p)`.
//! Addition, subtraction, negation and multiplication are the reductions
//! modulo `p` of the integer operations; they are written here and proved
//! against that statement.  Inversion is delegated to `p3_koala_bear`.
use vstd::arithmetic::div_mod::*;
use vstd::prelude::*;

use crate::rng::next_u32;

verus! {

/// The field modulus `p = 2^31 - 2^24 + 1 = 0x7f000001`.
pub const P: u32 = 2130706433u32;

/// An element of the KoalaBear field, stored as its canonical value.
#[derive(Clone, Copy, Debug, PartialEq, Eq, Structural)]
pub struct KoalaBear {
    pub val: u32,
}

/// The canonical field element congruent to the integer `x`.
pub open spec fn fe(x: int) -> KoalaBear {
    KoalaBear { val: (x % (P as int)) as u32 }
}

impl KoalaBear {
    /// The integer held by this element.
    pub open spec fn v(self) -> int {
        self.val as int
    }

    /// The element is held by its canonical representative.
    pub open spec fn wf(self) -> bool {
        self.val < P
    }

    pub open spec fn spec_add(self, other: KoalaBear) -> KoalaBear {
        fe(self.v() + other.v())
    }

    pub open spec fn spec_sub(self, other: KoalaBear) -> KoalaBear {
        fe(self.v() - other.v())
    }

    pub open spec fn spec_mul(self, other: KoalaBear) -> KoalaBear {
        fe(self.v() * other.v())
    }

    pub open spec fn spec_neg(self) -> KoalaBear {
        fe(-self.v())
    }

    /// The additive identity.
    pub fn zero() -> (r: KoalaBear)
        ensures
            r == fe(0),
            r.wf(),
    {
        KoalaBear { val: 0 }
    }

    /// The multiplicative identity.
    pub fn one() -> (r: KoalaBear)
        ensures
            r == fe(1),
            r.wf(),
    {
        KoalaBear { val: 1 }
    }

    /// The field element `val mod p`.
    pub fn from_u32(val: u32) -> (r: KoalaBear)
        ensures
            r == fe(val as int),
            r.wf(),
    {
        KoalaBear { val: val % P }
    }

    /// Same as [`KoalaBear::from_u32`].
    pub fn new(val: u32) -> (r: KoalaBear)
        ensures
            r == fe(val as int),
            r.wf(),
    {
        Self::from_u32(val)
    }

    /// The canonical representative in `[0, p)`.
    pub fn as_canonical_u32(&self) -> (r: u32)
        ensures
            r == self.val,
    {
        self.val
    }

    /// Whether this element is the additive identity.
    pub fn is_zero(&self) -> (r: bool)
        ensures
            r == (self.val == 0),
    {
        self.val == 0
    }

    /// Field addition.
    pub fn add(self, other: KoalaBear) -> (r: KoalaBear)
        ensures
            r == self.spec_add(other),
            r.wf(),
    {
        let s: u64 = (self.val as u64 + other.val as u64) % (P as u64);
        KoalaBear { val: s as u32 }
    }

    /// Field subtraction.
    pub fn sub(self, other: KoalaBear) -> (r: KoalaBear)
        ensures
            r == self.spec_sub(other),
            r.wf(),
    {
        let b: u64 = other.val as u64 % (P as u64);
        let s: u64 = (self.val as u64 + (P as u64 - b)) % (P as u64);
        proof {
            let pi = P as int;
            let q = other.v() / pi;
            lemma_fundamental_div_mod(other.v(), pi);
            assert(self.v() + (pi - b) == pi * (q + 1) + (self.v() - other.v()));
            lemma_mod_multiples_vanish(q + 1, self.v() - other.v(), pi);
        }
        KoalaBear { val: s as u32 }
    }

    /// Field negation.
    pub fn neg(self) -> (r: KoalaBear)
        ensures
            r == self.spec_neg(),
            r.wf(),
    {
        let z = KoalaBear { val: 0 };
        let r = z.sub(self);
        assert(0 - self.v() == -self.v());
        r
    }

    /// Field multiplication.
    pub fn mul(self, other: KoalaBear) -> (r: KoalaBear)
        ensures
            r == self.spec_mul(other),
            r.wf(),
    {
        let a: u64 = self.val as u64;
        let b: u64 = other.val as u64;
        assert(a * b <= 0xffff_ffff * 0xffff_ffff) by (nonlinear_arith)
            requires
                a <= 0xffff_ffff,
                b <= 0xffff_ffff,
        ;
        let s: u64 = (a * b) % (P as u64);
        KoalaBear { val: s as u32 }
    }

    /// Squares this element.
    pub fn square(self) -> (r: KoalaBear)
        ensures
            r == self.spec_mul(self),
            r.wf(),
    {
        self.mul(self)
    }

    /// Multiplicative inverse, if it exists.
    pub fn inverse(self) -> (r: Option<KoalaBear>)
        ensures
            self.wf() ==> (r is None <==> self.val == 0),
            r matches Some(w) ==> w.wf() && self.spec_mul(w) == fe(1),
    {
        let c = self.val % P;
        match koala_bear_try_inverse(c) {
            None => None,
            Some(w) => {
                proof {
                    lemma_mul_mod_noop_left(self.v(), w as int, P as int);
                }
                Some(KoalaBear { val: w })
            },
        }
    }

    /// Samples a field element from the next `u32` drawn from `rng`, reduced modulo `p`.
    pub fn random(rng: &mut rand::rngs::SmallRng) -> (r: KoalaBear)
        ensures
            r.wf(),
    {
        Self::from_u32(next_u32(rng))
    }
}

/// Calls `p3_field::Field::try_inverse` on the KoalaBear element `v` (given by its
/// canonical value) and returns the canonical value of the result.  As that
/// method documents, the result is `None` exactly for zero and otherwise the
/// element `w` with `v * w = 1` in the field.
#[verifier::external_body]
fn koala_bear_try_inverse(v: u32) -> (r: Option<u32>)
    requires
        v < P,
    ensures
        r is None <==> v == 0,
        r matches Some(w) ==> w < P && (v * w) % (P as int) == 1,
{
    p3_field::Field::try_inverse(&p3_koala_bear::KoalaBear::new(v)).map(
        |w| p3_field::PrimeField32::as_canonical_u32(&w),
    )
}

} // verus!
