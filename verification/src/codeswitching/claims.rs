//! Splitting an inner-product (or triple-product) claim over a long vector
//! into one claim per chunk of the output code's message length.
use vstd::prelude::*;

use crate::field::{fe, KoalaBear};
use crate::vectors::{
    dot, hadamard, isum, lemma_fe_add, lemma_isum_append, lemma_sum_fe, lemma_sum_take_step, sum,
};

verus! {

/// One chunk-level claim produced by [`split_claim_ip`].
#[derive(Debug, Clone, PartialEq)]
pub struct SplitIpClaim {
    pub chunk_index: usize,
    pub coeffs: Vec<KoalaBear>,
    pub target: KoalaBear,
}

impl SplitIpClaim {
    pub fn witness_len(&self) -> (r: usize)
        ensures
            r == self.coeffs@.len(),
    {
        self.coeffs.len()
    }
}

/// One chunk-level claim produced by [`split_claim_tip`].
#[derive(Debug, Clone, PartialEq)]
pub struct SplitTipClaim {
    pub chunk_index: usize,
    pub coeffs: Vec<KoalaBear>,
    pub target: KoalaBear,
}

impl SplitTipClaim {
    pub fn witness_len(&self) -> (r: usize)
        ensures
            r == self.coeffs@.len(),
    {
        self.coeffs.len()
    }
}

/// Chunk `i` of length `k` of `s`.
pub open spec fn chunk(s: Seq<KoalaBear>, k: nat, i: int) -> Seq<KoalaBear> {
    s.subrange(i * k, (i + 1) * k)
}

/// The triple product `sum_i a_i b_i c_i`.
pub open spec fn triple_dot(a: Seq<KoalaBear>, b: Seq<KoalaBear>, c: Seq<KoalaBear>) -> KoalaBear {
    sum(hadamard(hadamard(a, b), c))
}

/// The inner product of two equally long slices, summed left to right.
pub fn inner_product(lhs: &[KoalaBear], rhs: &[KoalaBear]) -> (r: KoalaBear)
    requires
        lhs@.len() == rhs@.len(),
    ensures
        r == dot(lhs@, rhs@),
{
    let mut acc = KoalaBear::zero();
    let mut i: usize = 0;
    while i < lhs.len()
        invariant
            lhs@.len() == rhs@.len(),
            i <= lhs@.len(),
            acc == sum(hadamard(lhs@, rhs@).take(i as int)),
        decreases lhs@.len() - i,
    {
        proof {
            lemma_sum_take_step(hadamard(lhs@, rhs@), i as int);
        }
        acc = acc.add(lhs[i].mul(rhs[i]));
        i += 1;
    }
    assert(hadamard(lhs@, rhs@).take(i as int) =~= hadamard(lhs@, rhs@));
    acc
}

/// The triple product of three equally long slices, summed left to right.
pub fn triple_product(lhs: &[KoalaBear], rhs: &[KoalaBear], coeffs: &[KoalaBear]) -> (r: KoalaBear)
    requires
        lhs@.len() == rhs@.len(),
        lhs@.len() == coeffs@.len(),
    ensures
        r == triple_dot(lhs@, rhs@, coeffs@),
{
    let ghost h = hadamard(hadamard(lhs@, rhs@), coeffs@);
    let mut acc = KoalaBear::zero();
    let mut i: usize = 0;
    while i < lhs.len()
        invariant
            lhs@.len() == rhs@.len(),
            lhs@.len() == coeffs@.len(),
            h == hadamard(hadamard(lhs@, rhs@), coeffs@),
            i <= lhs@.len(),
            acc == sum(h.take(i as int)),
        decreases lhs@.len() - i,
    {
        proof {
            lemma_sum_take_step(h, i as int);
        }
        acc = acc.add(lhs[i].mul(rhs[i]).mul(coeffs[i]));
        i += 1;
    }
    assert(h.take(i as int) =~= h);
    acc
}

/// The sum of `s` is the sum of the sums of its chunks of length `k`.
pub proof fn lemma_sum_chunks(s: Seq<KoalaBear>, k: nat, m: nat)
    requires
        s.len() == m * k,
    ensures
        sum(s) == sum(Seq::new(m, |i: int| sum(chunk(s, k, i)))),
    decreases m,
{
    let sums = Seq::new(m, |i: int| sum(chunk(s, k, i)));
    if m == 0 {
        assert(s.len() == 0) by (nonlinear_arith)
            requires
                s.len() == m * k,
                m == 0,
        ;
    } else {
        let m1 = (m - 1) as nat;
        assert(m1 * k + k == m * k) by (nonlinear_arith)
            requires
                m1 == m - 1,
        ;
        assert(0 <= m1 * k) by (nonlinear_arith);
        let front = s.take((m1 * k) as int);
        lemma_sum_chunks(front, k, m1);
        let front_sums = Seq::new(m1, |i: int| sum(chunk(front, k, i)));
        assert forall|i: int| 0 <= i < m1 implies #[trigger] front_sums[i] == sums.drop_last()[i] by {
            assert((i + 1) * k <= m1 * k) by (nonlinear_arith)
                requires
                    0 <= i < m1,
            ;
            assert(0 <= i * k) by (nonlinear_arith)
                requires
                    0 <= i,
            ;
            assert(front.len() == m1 * k);
            assert(i * k <= (i + 1) * k) by (nonlinear_arith)
                requires
                    0 <= i,
            ;
            assert(chunk(front, k, i) =~= chunk(s, k, i));
        }
        assert(front_sums =~= sums.drop_last());
        crate::vectors::lemma_sum_split(s, (m1 * k) as int);
        assert(s.skip(m1 * k as int) =~= chunk(s, k, m1 as int));
    }
}

/// One claim per chunk of length `k_prime`: the chunk's coefficients and the
/// inner product of the chunk of `msg` with them.  The chunk targets add up to
/// `sigma`, which must therefore be the inner product of the whole vectors.
pub fn split_claim_ip(msg: &[KoalaBear], v_b: &[KoalaBear], sigma: KoalaBear, k_prime: usize) -> (r: Vec<
    SplitIpClaim,
>)
    requires
        k_prime > 0,
        msg@.len() == v_b@.len(),
        msg@.len() % (k_prime as nat) == 0,
        msg@.len() > 0,
        sigma == dot(msg@, v_b@),
    ensures
        r@.len() == msg@.len() / (k_prime as nat),
        forall|i: int|
            0 <= i < r@.len() ==> {
                &&& (#[trigger] r@[i]).chunk_index == i
                &&& r@[i].coeffs@ == chunk(v_b@, k_prime as nat, i)
                &&& r@[i].target == dot(chunk(msg@, k_prime as nat, i), chunk(v_b@, k_prime as nat, i))
            },
        sum(Seq::new(r@.len(), |i: int| r@[i].target)) == sigma,
{
    let n = msg.len();
    let chunk_count = n / k_prime;
    let ghost k = k_prime as nat;
    proof {
        vstd::arithmetic::div_mod::lemma_fundamental_div_mod(n as int, k_prime as int);
        assert(chunk_count * k == n) by (nonlinear_arith)
            requires
                n as int == k_prime * ((n as int) / (k_prime as int)) + (n as int) % (k_prime as int),
                (n as int) % (k_prime as int) == 0,
                chunk_count == (n as int) / (k_prime as int),
                k == k_prime,
        ;
    }
    let mut claims: Vec<SplitIpClaim> = Vec::with_capacity(chunk_count);
    let mut sigma_sum = KoalaBear::zero();
    let mut i: usize = 0;
    while i < chunk_count
        invariant
            chunk_count == msg@.len() / (k_prime as nat),
            n == msg@.len(),
            chunk_count * k == n,
            k == k_prime,
            k_prime > 0,
            msg@.len() == v_b@.len(),
            msg@.len() % (k_prime as nat) == 0,
            i <= chunk_count,
            claims@.len() == i,
            forall|j: int|
                0 <= j < i ==> {
                    &&& (#[trigger] claims@[j]).chunk_index == j
                    &&& claims@[j].coeffs@ == chunk(v_b@, k, j)
                    &&& claims@[j].target == dot(chunk(msg@, k, j), chunk(v_b@, k, j))
                },
            sigma_sum == sum(Seq::new(i as nat, |j: int| claims@[j].target)),
        decreases chunk_count - i,
    {
        proof {
            assert((i + 1) * k <= chunk_count * k) by (nonlinear_arith)
                requires
                    i < chunk_count,
            ;
            vstd::arithmetic::div_mod::lemma_fundamental_div_mod(msg@.len() as int, k_prime as int);
            assert(0 <= i * k) by (nonlinear_arith);
            assert(i * k + k == (i + 1) * k) by (nonlinear_arith);
        }
        let start = i * k_prime;
        let end = start + k_prime;
        let m = crate::copy_range(msg, start, end);
        let coeffs = crate::copy_range(v_b, start, end);
        let sigma_i = inner_product(m.as_slice(), coeffs.as_slice());
        let ghost old_claims = claims@;
        sigma_sum = sigma_sum.add(sigma_i);
        claims.push(SplitIpClaim { chunk_index: i, coeffs, target: sigma_i });
        proof {
            let t = Seq::new((i + 1) as nat, |j: int| claims@[j].target);
            lemma_sum_take_step(t, i as int);
            assert(t.take(i as int) =~= Seq::new(i as nat, |j: int| old_claims[j].target));
            assert(t.take(i + 1) =~= t);
        }
        i += 1;
    }
    proof {
        let k = k_prime as nat;
        let h = hadamard(msg@, v_b@);
        vstd::arithmetic::div_mod::lemma_fundamental_div_mod(msg@.len() as int, k_prime as int);
        assert(h.len() == chunk_count * k) by (nonlinear_arith)
            requires
                h.len() == msg@.len(),
                msg@.len() == k_prime * (msg@.len() / (k_prime as nat)) + msg@.len() % (k_prime as nat),
                msg@.len() % (k_prime as nat) == 0,
                chunk_count == msg@.len() / (k_prime as nat),
                k == k_prime,
        ;
        lemma_sum_chunks(h, k, chunk_count as nat);
        assert forall|j: int| 0 <= j < chunk_count implies #[trigger] chunk(h, k, j) =~= hadamard(
            chunk(msg@, k, j),
            chunk(v_b@, k, j),
        ) by {
            assert((j + 1) * k <= chunk_count * k) by (nonlinear_arith)
                requires
                    j < chunk_count,
            ;
            assert(0 <= j * k) by (nonlinear_arith)
                requires
                    0 <= j,
            ;
            assert((j + 1) * k - j * k == k) by (nonlinear_arith);
        }
        assert(Seq::new(chunk_count as nat, |j: int| claims@[j].target) =~= Seq::new(
            chunk_count as nat,
            |j: int| sum(chunk(h, k, j)),
        ));
    }
    claims
}

/// One claim per chunk of length `k_prime`: the chunk's coefficients and the
/// triple product of the chunks of `msg`, `msg_prime` and `v_b`.  The chunk
/// targets add up to `sigma`, which must therefore be the whole triple product.
pub fn split_claim_tip(
    msg: &[KoalaBear],
    msg_prime: &[KoalaBear],
    v_b: &[KoalaBear],
    sigma: KoalaBear,
    k_prime: usize,
) -> (r: Vec<SplitTipClaim>)
    requires
        k_prime > 0,
        msg@.len() == msg_prime@.len(),
        msg@.len() == v_b@.len(),
        msg@.len() % (k_prime as nat) == 0,
        msg@.len() > 0,
        sigma == triple_dot(msg@, msg_prime@, v_b@),
    ensures
        r@.len() == msg@.len() / (k_prime as nat),
        forall|i: int|
            0 <= i < r@.len() ==> {
                &&& (#[trigger] r@[i]).chunk_index == i
                &&& r@[i].coeffs@ == chunk(v_b@, k_prime as nat, i)
                &&& r@[i].target == triple_dot(
                    chunk(msg@, k_prime as nat, i),
                    chunk(msg_prime@, k_prime as nat, i),
                    chunk(v_b@, k_prime as nat, i),
                )
            },
        sum(Seq::new(r@.len(), |i: int| r@[i].target)) == sigma,
{
    let n = msg.len();
    let chunk_count = n / k_prime;
    let ghost k = k_prime as nat;
    proof {
        vstd::arithmetic::div_mod::lemma_fundamental_div_mod(n as int, k_prime as int);
        assert(chunk_count * k == n) by (nonlinear_arith)
            requires
                n as int == k_prime * ((n as int) / (k_prime as int)) + (n as int) % (k_prime as int),
                (n as int) % (k_prime as int) == 0,
                chunk_count == (n as int) / (k_prime as int),
                k == k_prime,
        ;
    }
    let mut claims: Vec<SplitTipClaim> = Vec::with_capacity(chunk_count);
    let mut sigma_sum = KoalaBear::zero();
    let mut i: usize = 0;
    while i < chunk_count
        invariant
            chunk_count == msg@.len() / (k_prime as nat),
            n == msg@.len(),
            chunk_count * k == n,
            k == k_prime,
            k_prime > 0,
            msg@.len() == msg_prime@.len(),
            msg@.len() == v_b@.len(),
            msg@.len() % (k_prime as nat) == 0,
            i <= chunk_count,
            claims@.len() == i,
            forall|j: int|
                0 <= j < i ==> {
                    &&& (#[trigger] claims@[j]).chunk_index == j
                    &&& claims@[j].coeffs@ == chunk(v_b@, k, j)
                    &&& claims@[j].target == triple_dot(chunk(msg@, k, j), chunk(msg_prime@, k, j), chunk(v_b@, k, j))
                },
            sigma_sum == sum(Seq::new(i as nat, |j: int| claims@[j].target)),
        decreases chunk_count - i,
    {
        proof {
            assert((i + 1) * k <= chunk_count * k) by (nonlinear_arith)
                requires
                    i < chunk_count,
            ;
            vstd::arithmetic::div_mod::lemma_fundamental_div_mod(msg@.len() as int, k_prime as int);
            assert(0 <= i * k) by (nonlinear_arith);
            assert(i * k + k == (i + 1) * k) by (nonlinear_arith);
        }
        let start = i * k_prime;
        let end = start + k_prime;
        let m = crate::copy_range(msg, start, end);
        let mp = crate::copy_range(msg_prime, start, end);
        let coeffs = crate::copy_range(v_b, start, end);
        let sigma_i = triple_product(m.as_slice(), mp.as_slice(), coeffs.as_slice());
        let ghost old_claims = claims@;
        sigma_sum = sigma_sum.add(sigma_i);
        claims.push(SplitTipClaim { chunk_index: i, coeffs, target: sigma_i });
        proof {
            let t = Seq::new((i + 1) as nat, |j: int| claims@[j].target);
            lemma_sum_take_step(t, i as int);
            assert(t.take(i as int) =~= Seq::new(i as nat, |j: int| old_claims[j].target));
            assert(t.take(i + 1) =~= t);
        }
        i += 1;
    }
    proof {
        let k = k_prime as nat;
        let h = hadamard(hadamard(msg@, msg_prime@), v_b@);
        vstd::arithmetic::div_mod::lemma_fundamental_div_mod(msg@.len() as int, k_prime as int);
        assert(h.len() == chunk_count * k) by (nonlinear_arith)
            requires
                h.len() == msg@.len(),
                msg@.len() == k_prime * (msg@.len() / (k_prime as nat)) + msg@.len() % (k_prime as nat),
                msg@.len() % (k_prime as nat) == 0,
                chunk_count == msg@.len() / (k_prime as nat),
                k == k_prime,
        ;
        lemma_sum_chunks(h, k, chunk_count as nat);
        assert forall|j: int| 0 <= j < chunk_count implies #[trigger] chunk(h, k, j) =~= hadamard(
            hadamard(chunk(msg@, k, j), chunk(msg_prime@, k, j)),
            chunk(v_b@, k, j),
        ) by {
            assert((j + 1) * k <= chunk_count * k) by (nonlinear_arith)
                requires
                    j < chunk_count,
            ;
            assert(0 <= j * k) by (nonlinear_arith)
                requires
                    0 <= j,
            ;
            assert((j + 1) * k - j * k == k) by (nonlinear_arith);
        }
        assert(Seq::new(chunk_count as nat, |j: int| claims@[j].target) =~= Seq::new(
            chunk_count as nat,
            |j: int| sum(chunk(h, k, j)),
        ));
    }
    claims
}

} // verus!
