//! The Basefold encoding: a repetition code followed by `log2(k)` rounds of
//! butterfly mixing with random tables.
use vstd::arithmetic::power2::{lemma_pow2_pos, lemma_pow2_unfold, pow2};
use vstd::prelude::*;

use crate::codeswitching::sumcheck::{is_pow2, log2};
use crate::field::KoalaBear;
use crate::field::fe;
use crate::linear::{lemma_high_add, lemma_high_scale, lemma_low_add, lemma_low_scale, vadd, vscale};
use crate::vectors::all_wf;

verus! {

/// Parameters of the Basefold code.
#[derive(Debug, Clone, Copy)]
pub struct BasefoldParams {
    /// Inverse rate: codeword length = message size * inv_rate.
    pub inv_rate: usize,
}

/// A Basefold code: its sizes and one random table per butterfly round.
#[derive(Debug)]
pub struct BasefoldCode {
    message_size: usize,
    log_message_size: usize,
    inv_rate: usize,
    codeword_length: usize,
    table: Vec<Vec<KoalaBear>>,
}

/// Every entry of `msg` repeated `t` times in place.
pub open spec fn repetition(msg: Seq<KoalaBear>, t: nat) -> Seq<KoalaBear> {
    Seq::new(msg.len() * t, |x: int| msg[x / (t as int)])
}

/// One butterfly round with halves of `half` entries: in each chunk of
/// `2 half` entries, with `rhs = hi * level[pos]`, the low entry becomes
/// `lo + rhs + rhs` and the high entry `lo + rhs`.
pub open spec fn butterfly(c: Seq<KoalaBear>, level: Seq<KoalaBear>, half: int) -> Seq<KoalaBear> {
    Seq::new(
        c.len(),
        |x: int|
            {
                let pos = x % (2 * half);
                if pos < half {
                    let rhs = c[x + half].spec_mul(level[pos]);
                    c[x].spec_add(rhs).spec_add(rhs)
                } else {
                    c[x - half].spec_add(c[x].spec_mul(level[pos - half]))
                }
            },
    )
}

/// The rounds `0..i` applied to `c`; round `j` has halves of `t 2^j` entries.
pub open spec fn butterflies(c: Seq<KoalaBear>, table: Seq<Seq<KoalaBear>>, t: nat, i: nat) -> Seq<KoalaBear>
    decreases i,
{
    if i == 0 {
        c
    } else {
        butterfly(
            butterflies(c, table, t, (i - 1) as nat),
            table[i - 1],
            (t * pow2((i - 1) as nat)) as int,
        )
    }
}

impl BasefoldCode {
    pub closed spec fn spec_message_size(&self) -> nat {
        self.message_size as nat
    }

    pub closed spec fn spec_inv_rate(&self) -> nat {
        self.inv_rate as nat
    }

    pub closed spec fn spec_codeword_length(&self) -> nat {
        self.codeword_length as nat
    }

    pub closed spec fn spec_rounds(&self) -> nat {
        self.log_message_size as nat
    }

    /// The tables of all rounds.
    pub closed spec fn spec_tables(&self) -> Seq<Seq<KoalaBear>> {
        Seq::new(self.table@.len(), |i: int| self.table@[i]@)
    }

    /// The sizes fit together: `k = 2^rounds`, `n = k * inv_rate`, and round
    /// `i`'s table has `inv_rate 2^i` entries.
    pub open spec fn wf(&self) -> bool {
        &&& is_pow2(self.spec_message_size())
        &&& self.spec_message_size() == pow2(self.spec_rounds())
        &&& self.spec_inv_rate() >= 1
        &&& self.spec_codeword_length() == self.spec_message_size() * self.spec_inv_rate()
        &&& self.spec_codeword_length() <= usize::MAX
        &&& self.spec_tables().len() == self.spec_rounds()
        &&& forall|i: int|
            0 <= i < self.spec_rounds() ==> (#[trigger] self.spec_tables()[i]).len() == self.spec_inv_rate()
                * pow2(i as nat)
    }

    /// The codeword of `msg`.
    pub open spec fn spec_encode(&self, msg: Seq<KoalaBear>) -> Seq<KoalaBear> {
        butterflies(repetition(msg, self.spec_inv_rate()), self.spec_tables(), self.spec_inv_rate(), self.spec_rounds())
    }

    /// Builds the code for messages of `message_size` (a power of two)
    /// entries, drawing every table entry from `rng`.
    pub fn new(message_size: usize, params: BasefoldParams, rng: &mut rand::rngs::SmallRng) -> (r: BasefoldCode)
        requires
            is_pow2(message_size as nat),
            params.inv_rate >= 1,
            message_size * params.inv_rate <= usize::MAX,
        ensures
            r.wf(),
            r.spec_message_size() == message_size,
            r.spec_inv_rate() == params.inv_rate,
            r.spec_rounds() == log2(message_size as nat),
            forall|i: int| 0 <= i < r.spec_rounds() ==> all_wf(#[trigger] r.spec_tables()[i]),
    {
        let log_message_size = crate::codeswitching::sumcheck::permutation::pow2_log(message_size);
        let inv_rate = params.inv_rate;
        let codeword_length = message_size * inv_rate;
        proof {
            crate::codeswitching::sumcheck::permutation::lemma_pow2_log2(message_size as nat);
        }
        let mut table: Vec<Vec<KoalaBear>> = Vec::with_capacity(log_message_size);
        let mut level_size = inv_rate;
        let mut i: usize = 0;
        proof {
            vstd::arithmetic::power2::lemma2_to64();
        }
        while i < log_message_size
            invariant
                log_message_size == log2(message_size as nat),
                message_size == pow2(log2(message_size as nat)),
                inv_rate >= 1,
                codeword_length == message_size * inv_rate,
                codeword_length <= usize::MAX,
                i <= log_message_size,
                level_size == inv_rate * pow2(i as nat),
                table@.len() == i,
                forall|j: int| 0 <= j < i ==> (#[trigger] table@[j])@.len() == inv_rate * pow2(j as nat),
                forall|j: int| 0 <= j < i ==> all_wf((#[trigger] table@[j])@),
            decreases log_message_size - i,
        {
            let mut level: Vec<KoalaBear> = Vec::with_capacity(level_size);
            let mut j: usize = 0;
            while j < level_size
                invariant
                    j <= level_size,
                    level@.len() == j,
                    all_wf(level@),
                decreases level_size - j,
            {
                let x = KoalaBear::random(rng);
                level.push(x);
                j += 1;
            }
            table.push(level);
            proof {
                lemma_pow2_unfold((i + 1) as nat);
                vstd::arithmetic::power2::lemma_pow2_strictly_increases(i as nat, log2(message_size as nat));
                if i + 1 < log_message_size {
                    vstd::arithmetic::power2::lemma_pow2_strictly_increases((i + 1) as nat, log2(message_size as nat));
                }
                assert(inv_rate * pow2((i + 1) as nat) <= inv_rate * message_size) by (nonlinear_arith)
                    requires
                        pow2((i + 1) as nat) <= message_size,
                        inv_rate >= 1,
                ;
                assert(inv_rate * pow2((i + 1) as nat) == 2 * (inv_rate * pow2(i as nat))) by (nonlinear_arith)
                    requires
                        pow2((i + 1) as nat) == 2 * pow2(i as nat),
                ;
                assert(inv_rate * message_size == message_size * inv_rate) by (nonlinear_arith);
            }
            level_size = level_size * 2;
            i += 1;
        }
        let r = BasefoldCode { message_size, log_message_size, inv_rate, codeword_length, table };
        proof {
            assert forall|i: int| 0 <= i < r.spec_rounds() implies (#[trigger] r.spec_tables()[i]).len()
                == r.spec_inv_rate() * pow2(i as nat) by {
                assert(r.spec_tables()[i] == table@[i]@);
            }
            assert forall|i: int| 0 <= i < r.spec_rounds() implies all_wf(#[trigger] r.spec_tables()[i]) by {
                assert(r.spec_tables()[i] == table@[i]@);
            }
        }
        r
    }

    /// The message size the code was built for.
    pub fn message_size(&self) -> (r: usize)
        ensures
            r == self.spec_message_size(),
    {
        self.message_size
    }

    /// The codeword length.
    pub fn codeword_length(&self) -> (r: usize)
        ensures
            r == self.spec_codeword_length(),
    {
        self.codeword_length
    }

    /// Encodes one message: repetition, then the butterfly rounds.
    pub fn encode(&self, msg: &[KoalaBear]) -> (r: Vec<KoalaBear>)
        requires
            self.wf(),
            msg@.len() == self.spec_message_size(),
        ensures
            r@ == self.spec_encode(msg@),
            r@.len() == self.spec_message_size() * self.spec_inv_rate(),
    {
        let t = self.inv_rate;
        let n = self.codeword_length;
        let mut codeword: Vec<KoalaBear> = Vec::with_capacity(n);
        let mut x: usize = 0;
        while x < n
            invariant
                self.wf(),
                t == self.spec_inv_rate(),
                n == self.spec_codeword_length(),
                msg@.len() == self.spec_message_size(),
                x <= n,
                codeword@ == repetition(msg@, t as nat).take(x as int),
            decreases n - x,
        {
            proof {
                vstd::arithmetic::div_mod::lemma_div_is_ordered(x as int, (n - 1) as int, t as int);
                vstd::arithmetic::div_mod::lemma_div_multiples_vanish(msg@.len() as int, t as int);
                vstd::arithmetic::mul::lemma_mul_is_commutative(msg@.len() as int, t as int);
                vstd::arithmetic::div_mod::lemma_div_is_ordered((n - 1) as int, n as int, t as int);
                assert((x as int) / (t as int) < msg@.len()) by {
                    vstd::arithmetic::div_mod::lemma_fundamental_div_mod(x as int, t as int);
                    vstd::arithmetic::div_mod::lemma_mod_bound(x as int, t as int);
                    assert(t * ((x as int) / (t as int)) <= x);
                    assert((x as int) / (t as int) < msg@.len()) by (nonlinear_arith)
                        requires
                            t * ((x as int) / (t as int)) <= x,
                            x < n,
                            n == msg@.len() * t,
                            t >= 1,
                    ;
                }
            }
            codeword.push(msg[x / t]);
            x += 1;
            assert(codeword@ =~= repetition(msg@, t as nat).take(x as int));
        }
        assert(codeword@ =~= repetition(msg@, t as nat));
        proof {
            vstd::arithmetic::power2::lemma2_to64();
        }
        let mut half = t;
        let mut i: usize = 0;
        while i < self.log_message_size
            invariant
                self.wf(),
                t == self.spec_inv_rate(),
                n == self.spec_codeword_length(),
                i <= self.spec_rounds(),
                half == t * pow2(i as nat),
                codeword@.len() == n,
                codeword@ == butterflies(repetition(msg@, t as nat), self.spec_tables(), t as nat, i as nat),
            decreases self.spec_rounds() - i,
        {
            proof {
                lemma_pow2_unfold((i + 1) as nat);
                vstd::arithmetic::power2::lemma_pow2_strictly_increases(i as nat, self.spec_rounds());
                if i + 1 < self.spec_rounds() {
                    vstd::arithmetic::power2::lemma_pow2_strictly_increases((i + 1) as nat, self.spec_rounds());
                }
                lemma_pow2_pos(i as nat);
                assert(2 * half <= n) by (nonlinear_arith)
                    requires
                        half == t * pow2(i as nat),
                        pow2((i + 1) as nat) == 2 * pow2(i as nat),
                        pow2((i + 1) as nat) <= self.spec_message_size(),
                        n == self.spec_message_size() * t,
                        t >= 1,
                ;
                assert(half >= 1) by (nonlinear_arith)
                    requires
                        half == t * pow2(i as nat),
                        t >= 1,
                        pow2(i as nat) >= 1,
                ;
                assert(self.spec_tables()[i as int] == self.table@[i as int]@);
                assert(self.spec_tables()[i as int].len() == t * pow2(i as nat));
                let rest = (self.spec_rounds() - (i + 1)) as nat;
                vstd::arithmetic::power2::lemma_pow2_adds((i + 1) as nat, rest);
                assert(((i + 1) as nat + rest) == self.spec_rounds());
                assert(n == (2 * half) * pow2(rest)) by (nonlinear_arith)
                    requires
                        n == self.spec_message_size() * t,
                        self.spec_message_size() == pow2((i + 1) as nat) * pow2(rest),
                        pow2((i + 1) as nat) == 2 * pow2(i as nat),
                        half == t * pow2(i as nat),
                ;
                vstd::arithmetic::div_mod::lemma_mod_multiples_basic(pow2(rest) as int, (2 * half) as int);
                vstd::arithmetic::mul::lemma_mul_is_commutative(pow2(rest) as int, (2 * half) as int);
            }
            let next = butterfly_round(&codeword, &self.table[i], half);
            codeword = next;
            proof {
                assert(t * pow2((i + 1) as nat) == 2 * half) by (nonlinear_arith)
                    requires
                        half == t * pow2(i as nat),
                        pow2((i + 1) as nat) == 2 * pow2(i as nat),
                ;
            }
            half = 2 * half;
            i += 1;
        }
        codeword
    }
}

/// One butterfly round over `c` with halves of `half` entries.
fn butterfly_round(c: &Vec<KoalaBear>, level: &Vec<KoalaBear>, half: usize) -> (r: Vec<KoalaBear>)
    requires
        half >= 1,
        2 * half <= c@.len(),
        c@.len() % ((2 * half) as nat) == 0,
        level@.len() == half,
    ensures
        r@ == butterfly(c@, level@, half as int),
{
    let n = c.len();
    let chunk = 2 * half;
    let mut out: Vec<KoalaBear> = Vec::with_capacity(n);
    let mut x: usize = 0;
    while x < n
        invariant
            n == c@.len(),
            chunk == 2 * half,
            half >= 1,
            n % chunk == 0,
            level@.len() == half,
            x <= n,
            out@ == butterfly(c@, level@, half as int).take(x as int),
        decreases n - x,
    {
        let pos = x % chunk;
        proof {
            vstd::arithmetic::div_mod::lemma_fundamental_div_mod(x as int, chunk as int);
            vstd::arithmetic::div_mod::lemma_fundamental_div_mod(n as int, chunk as int);
            vstd::arithmetic::div_mod::lemma_mod_bound(x as int, chunk as int);
            let q = (x as int) / (chunk as int);
            assert(q < (n as int) / (chunk as int)) by (nonlinear_arith)
                requires
                    x as int == chunk * q + (x as int) % (chunk as int),
                    n as int == chunk * ((n as int) / (chunk as int)),
                    0 <= (x as int) % (chunk as int),
                    x < n,
                    chunk > 0,
            ;
            assert(chunk * q + chunk <= n) by (nonlinear_arith)
                requires
                    q < (n as int) / (chunk as int),
                    n as int == chunk * ((n as int) / (chunk as int)),
                    chunk > 0,
            ;
        }
        let v = if pos < half {
            let rhs = c[x + half].mul(level[pos]);
            c[x].add(rhs).add(rhs)
        } else {
            c[x - half].add(c[x].mul(level[pos - half]))
        };
        out.push(v);
        x += 1;
        assert(out@ =~= butterfly(c@, level@, half as int).take(x as int));
    }
    assert(out@ =~= butterfly(c@, level@, half as int));
    out
}

/// In a vector of `m` chunks of `2 half` entries, a low position plus `half`
/// stays inside the vector.
proof fn lemma_low_partner(x: int, half: int, m: int)
    requires
        half > 0,
        0 <= x < m * (2 * half),
        x % (2 * half) < half,
    ensures
        x + half < m * (2 * half),
        x % (2 * half) >= 0,
{
    crate::vectors::lemma_grid_coords(x, 2 * half, m);
    let q = x / (2 * half);
    assert(x + half < m * (2 * half)) by (nonlinear_arith)
        requires
            half > 0,
            x == q * (2 * half) + x % (2 * half),
            x % (2 * half) < half,
            0 <= q < m,
    ;
}

/// A position is at least its offset inside its chunk.
proof fn lemma_high_partner(x: int, half: int, m: int)
    requires
        half > 0,
        0 <= x < m * (2 * half),
    ensures
        x >= x % (2 * half),
{
    crate::vectors::lemma_grid_coords(x, 2 * half, m);
    let q = x / (2 * half);
    assert(x >= x % (2 * half)) by (nonlinear_arith)
        requires
            half > 0,
            x == q * (2 * half) + x % (2 * half),
            0 <= q,
    ;
}

/// One butterfly round is additive.
proof fn lemma_butterfly_vadd(c: Seq<KoalaBear>, d: Seq<KoalaBear>, level: Seq<KoalaBear>, half: int, m: int)
    requires
        half > 0,
        c.len() == d.len(),
        c.len() == m * (2 * half),
    ensures
        butterfly(vadd(c, d), level, half) == vadd(butterfly(c, level, half), butterfly(d, level, half)),
{
    assert forall|x: int| 0 <= x < c.len() implies #[trigger] butterfly(vadd(c, d), level, half)[x] == vadd(
        butterfly(c, level, half),
        butterfly(d, level, half),
    )[x] by {
        vstd::arithmetic::div_mod::lemma_mod_bound(x, 2 * half);
        let pos = x % (2 * half);
        if pos < half {
            lemma_low_partner(x, half, m);
            lemma_low_add(c[x], d[x], c[x + half], d[x + half], level[pos]);
            let e = vadd(c, d);
            assert(e[x] == c[x].spec_add(d[x]));
            assert(e[x + half] == c[x + half].spec_add(d[x + half]));
        } else {
            lemma_high_partner(x, half, m);
            lemma_high_add(c[x - half], d[x - half], c[x], d[x], level[pos - half]);
            let e = vadd(c, d);
            assert(e[x] == c[x].spec_add(d[x]));
            assert(e[x - half] == c[x - half].spec_add(d[x - half]));
        }
    }
    assert(butterfly(vadd(c, d), level, half) =~= vadd(butterfly(c, level, half), butterfly(d, level, half)));
}

/// One butterfly round is homogeneous.
proof fn lemma_butterfly_vscale(k: KoalaBear, c: Seq<KoalaBear>, level: Seq<KoalaBear>, half: int, m: int)
    requires
        half > 0,
        c.len() == m * (2 * half),
    ensures
        butterfly(vscale(k, c), level, half) == vscale(k, butterfly(c, level, half)),
{
    assert forall|x: int| 0 <= x < c.len() implies #[trigger] butterfly(vscale(k, c), level, half)[x] == vscale(
        k,
        butterfly(c, level, half),
    )[x] by {
        vstd::arithmetic::div_mod::lemma_mod_bound(x, 2 * half);
        let pos = x % (2 * half);
        if pos < half {
            lemma_low_partner(x, half, m);
            lemma_low_scale(k, c[x], c[x + half], level[pos]);
            let e = vscale(k, c);
            assert(e[x] == k.spec_mul(c[x]));
            assert(e[x + half] == k.spec_mul(c[x + half]));
        } else {
            lemma_high_partner(x, half, m);
            lemma_high_scale(k, c[x - half], c[x], level[pos - half]);
            let e = vscale(k, c);
            assert(e[x] == k.spec_mul(c[x]));
            assert(e[x - half] == k.spec_mul(c[x - half]));
        }
    }
    assert(butterfly(vscale(k, c), level, half) =~= vscale(k, butterfly(c, level, half)));
}

/// The sizes of round `i`: a vector of `t 2^rounds` entries is made of
/// `2^(rounds - i)` chunks of `2 (t 2^(i - 1))` entries.
proof fn lemma_round_chunks(t: nat, rounds: nat, i: nat)
    requires
        t >= 1,
        1 <= i <= rounds,
    ensures
        t * pow2((i - 1) as nat) > 0,
        t * pow2(rounds) == pow2((rounds - i) as nat) * (2 * (t * pow2((i - 1) as nat))),
{
    lemma_pow2_pos((i - 1) as nat);
    lemma_pow2_unfold(i);
    vstd::arithmetic::power2::lemma_pow2_adds((rounds - i) as nat, i);
    let a = pow2((rounds - i) as nat);
    let b = pow2((i - 1) as nat);
    assert(t * b > 0) by (nonlinear_arith)
        requires
            t >= 1,
            b > 0,
    ;
    assert(t * (a * (2 * b)) == a * (2 * (t * b))) by (nonlinear_arith);
}

/// The rounds are additive.
proof fn lemma_butterflies_vadd(c: Seq<KoalaBear>, d: Seq<KoalaBear>, table: Seq<Seq<KoalaBear>>, t: nat, rounds: nat, i: nat)
    requires
        t >= 1,
        i <= rounds,
        c.len() == d.len(),
        c.len() == t * pow2(rounds),
    ensures
        butterflies(c, table, t, i).len() == c.len(),
        butterflies(vadd(c, d), table, t, i) == vadd(butterflies(c, table, t, i), butterflies(d, table, t, i)),
    decreases i,
{
    if i > 0 {
        lemma_butterflies_vadd(c, d, table, t, rounds, (i - 1) as nat);
        lemma_butterflies_len(d, table, t, (i - 1) as nat);
        lemma_round_chunks(t, rounds, i);
        lemma_butterfly_vadd(
            butterflies(c, table, t, (i - 1) as nat),
            butterflies(d, table, t, (i - 1) as nat),
            table[i - 1],
            (t * pow2((i - 1) as nat)) as int,
            pow2((rounds - i) as nat) as int,
        );
    }
}

/// The rounds are homogeneous.
proof fn lemma_butterflies_vscale(k: KoalaBear, c: Seq<KoalaBear>, table: Seq<Seq<KoalaBear>>, t: nat, rounds: nat, i: nat)
    requires
        t >= 1,
        i <= rounds,
        c.len() == t * pow2(rounds),
    ensures
        butterflies(vscale(k, c), table, t, i) == vscale(k, butterflies(c, table, t, i)),
    decreases i,
{
    if i > 0 {
        lemma_butterflies_vscale(k, c, table, t, rounds, (i - 1) as nat);
        lemma_butterflies_len(c, table, t, (i - 1) as nat);
        lemma_round_chunks(t, rounds, i);
        lemma_butterfly_vscale(
            k,
            butterflies(c, table, t, (i - 1) as nat),
            table[i - 1],
            (t * pow2((i - 1) as nat)) as int,
            pow2((rounds - i) as nat) as int,
        );
    }
}

/// The rounds keep the length.
proof fn lemma_butterflies_len(c: Seq<KoalaBear>, table: Seq<Seq<KoalaBear>>, t: nat, i: nat)
    ensures
        butterflies(c, table, t, i).len() == c.len(),
    decreases i,
{
    if i > 0 {
        lemma_butterflies_len(c, table, t, (i - 1) as nat);
    }
}

/// Repetition is linear.
proof fn lemma_repetition_linear(c: KoalaBear, a: Seq<KoalaBear>, b: Seq<KoalaBear>, t: nat)
    requires
        a.len() == b.len(),
        t >= 1,
    ensures
        repetition(vadd(a, b), t) == vadd(repetition(a, t), repetition(b, t)),
        repetition(vscale(c, a), t) == vscale(c, repetition(a, t)),
{
    assert forall|x: int| 0 <= x < a.len() * t implies 0 <= #[trigger] (x / (t as int)) < a.len() by {
        crate::vectors::lemma_grid_coords(x, t as int, a.len() as int);
    }
    assert(repetition(vadd(a, b), t) =~= vadd(repetition(a, t), repetition(b, t)));
    assert(repetition(vscale(c, a), t) =~= vscale(c, repetition(a, t)));
}

impl BasefoldCode {
    /// The code is linear: the codeword of a sum of messages is the sum of
    /// their codewords.
    pub proof fn lemma_additive(&self, a: Seq<KoalaBear>, b: Seq<KoalaBear>)
        requires
            self.wf(),
            a.len() == self.spec_message_size(),
            b.len() == self.spec_message_size(),
        ensures
            self.spec_encode(vadd(a, b)) == vadd(self.spec_encode(a), self.spec_encode(b)),
    {
        let t = self.spec_inv_rate();
        lemma_repetition_linear(fe(0), a, b, t);
        assert(a.len() * t == t * pow2(self.spec_rounds())) by (nonlinear_arith)
            requires
                a.len() == pow2(self.spec_rounds()),
        ;
        lemma_butterflies_vadd(repetition(a, t), repetition(b, t), self.spec_tables(), t, self.spec_rounds(), self.spec_rounds());
    }

    /// The code is linear: the codeword of a multiple of a message is that
    /// multiple of its codeword.
    pub proof fn lemma_homogeneous(&self, c: KoalaBear, a: Seq<KoalaBear>)
        requires
            self.wf(),
            a.len() == self.spec_message_size(),
        ensures
            self.spec_encode(vscale(c, a)) == vscale(c, self.spec_encode(a)),
    {
        let t = self.spec_inv_rate();
        lemma_repetition_linear(c, a, a, t);
        assert(a.len() * t == t * pow2(self.spec_rounds())) by (nonlinear_arith)
            requires
                a.len() == pow2(self.spec_rounds()),
        ;
        lemma_butterflies_vscale(c, repetition(a, t), self.spec_tables(), t, self.spec_rounds(), self.spec_rounds());
    }

    /// With one-entry messages there are no rounds: the code repeats the entry
    /// `inv_rate` times.
    pub proof fn lemma_single_entry(&self, msg: Seq<KoalaBear>)
        requires
            self.wf(),
            self.spec_message_size() == 1,
            msg.len() == 1,
        ensures
            self.spec_encode(msg) == Seq::new(self.spec_inv_rate(), |i: int| msg[0]),
    {
        if self.spec_rounds() > 0 {
            vstd::arithmetic::power2::lemma_pow2_strictly_increases(0, self.spec_rounds());
            vstd::arithmetic::power2::lemma2_to64();
        }
        let t = self.spec_inv_rate();
        assert forall|x: int| 0 <= x < t implies #[trigger] (x / (t as int)) == 0 by {
            vstd::arithmetic::div_mod::lemma_basic_div(x, t as int);
        }
        assert(repetition(msg, t) =~= Seq::new(t, |i: int| msg[0]));
    }
}

/// In every butterfly round the two outputs of a pair `(lo, hi)` at position
/// `pos` of its chunk differ by `hi * level[pos]`: the high output is
/// `lo + hi * level[pos]` and the low output exceeds it by `hi * level[pos]`
/// once more.
pub proof fn lemma_butterfly_pairs(c: Seq<KoalaBear>, level: Seq<KoalaBear>, half: int, x: int)
    requires
        half >= 1,
        (c.len() as int) % (2 * half) == 0,
        0 <= x < c.len(),
        x % (2 * half) < half,
    ensures
        x + half < c.len(),
        butterfly(c, level, half)[x + half] == c[x].spec_add(c[x + half].spec_mul(level[x % (2 * half)])),
        butterfly(c, level, half)[x] == butterfly(c, level, half)[x + half].spec_add(
            c[x + half].spec_mul(level[x % (2 * half)]),
        ),
{
    let m = 2 * half;
    let q = x / m;
    let pos = x % m;
    vstd::arithmetic::div_mod::lemma_fundamental_div_mod(x, m);
    vstd::arithmetic::div_mod::lemma_mod_bound(x, m);
    vstd::arithmetic::div_mod::lemma_fundamental_div_mod(c.len() as int, m);
    vstd::arithmetic::div_mod::lemma_fundamental_div_mod_converse(x + half, m, q, pos + half);
    assert(x + half < c.len()) by (nonlinear_arith)
        requires
            x == m * q + pos,
            0 <= pos < half,
            m == 2 * half,
            c.len() == m * (c.len() as int / m),
            x < c.len(),
            0 <= x,
    ;
}

/// With two-entry messages and rate one there is a single round with table
/// `[t]`: the codeword of `[a, b]` is `[a + 2 t b, a + t b]`, its first entry
/// exceeding its second by `t b`.
pub proof fn lemma_two_entry_codeword(code: BasefoldCode, a: KoalaBear, b: KoalaBear)
    requires
        code.wf(),
        code.spec_message_size() == 2,
        code.spec_inv_rate() == 1,
    ensures
        ({
            let t = code.spec_tables()[0][0];
            let w = code.spec_encode(seq![a, b]);
            &&& w.len() == 2
            &&& w[1] == a.spec_add(b.spec_mul(t))
            &&& w[0] == w[1].spec_add(b.spec_mul(t))
        }),
{
    vstd::arithmetic::power2::lemma2_to64();
    assert(code.spec_rounds() == 1) by {
        if code.spec_rounds() == 0 {
            assert(pow2(0) == 1);
        } else if code.spec_rounds() >= 2 {
            vstd::arithmetic::power2::lemma_pow2_strictly_increases(1, code.spec_rounds());
        }
    }
    let msg = seq![a, b];
    assert(repetition(msg, 1) =~= msg);
    assert(pow2(0) == 1);
    let r = butterflies(msg, code.spec_tables(), 1, 1);
    assert(r == butterfly(butterflies(msg, code.spec_tables(), 1, 0), code.spec_tables()[0], 1));
    lemma_butterfly_pairs(msg, code.spec_tables()[0], 1, 0);
}

} // verus!
