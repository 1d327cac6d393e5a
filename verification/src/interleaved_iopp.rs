//! An interleaved-code evaluation protocol: the prover folds the `2^eta`
//! message rows with `eq(z_1, .)`, claims `y = m(z)`, and opens queried
//! codeword columns with their Merkle paths; the verifier re-encodes the
//! folded message and checks every opened column against it.
use vstd::arithmetic::power2::pow2;
use vstd::prelude::*;

use crate::field::KoalaBear;
use crate::merkle::{
    blake3_merkle_open_interleaved, blake3_merkle_verify_interleaved_column, dview, fold_path, leaf, lemma_open_then_verify,
    level, limb_views, merkle_root, open_path,
};
use crate::codeswitching::sumcheck::{is_pow2, log2};
use crate::poly::{eq_table, eq_weights, lemma_eq_eval, lemma_eq_len, lemma_eq_tensor, mle_eval};
use crate::ring::{block_sums, col_sums, isum_g, lemma_isum_blocks, lemma_isum_ext, lemma_isum_scale, lemma_isum_swap, lemma_mul_l, lemma_sum_terms, row_sums, shifted};
use crate::field::fe;
use crate::vectors::{all_wf, lemma_grid_coords, lemma_grid_index};
use crate::vectors::{dot, hadamard, lemma_mul_comm, lemma_sum_take_step, sum};

verus! {

/// Prover's first message: the folded message and the claimed evaluation.
#[derive(Debug, Clone)]
pub struct ProverFirstMessage {
    /// Folded message `sum_r eq(z_1, r) msg_row[r]`, of length `2^(k - eta)`.
    pub folded_msg: Vec<KoalaBear>,
    /// Claimed evaluation `y = m(z)`.
    pub y: KoalaBear,
}

/// Verifier's challenge: codeword column indices.
#[derive(Debug, Clone)]
pub struct VerifierChallenge {
    pub query_indices: Vec<usize>,
}

/// Prover's second message: each queried column (one value per row) and its
/// Merkle authentication path.
#[derive(Debug, Clone)]
pub struct ProverSecondMessage {
    pub columns: Vec<Vec<KoalaBear>>,
    pub merkle_paths: Vec<Vec<[u8; 32]>>,
}

/// Entry `i` of the folded message: `sum_r w_r msg[r s + i]`.
pub open spec fn folded_entry(msg: Seq<KoalaBear>, w: Seq<KoalaBear>, s: int, i: int) -> KoalaBear {
    sum(Seq::new(w.len(), |r: int| w[r].spec_mul(msg[r * s + i])))
}

/// The folded message: `s` entries, each the `w`-weighted sum of one column of rows.
pub open spec fn folded(msg: Seq<KoalaBear>, w: Seq<KoalaBear>, s: int) -> Seq<KoalaBear> {
    Seq::new(s as nat, |i: int| folded_entry(msg, w, s, i))
}

/// The inner product over the common prefix of two sequences.
pub open spec fn zip_dot(a: Seq<KoalaBear>, b: Seq<KoalaBear>) -> KoalaBear {
    let m = if a.len() < b.len() {
        a.len()
    } else {
        b.len()
    };
    dot(a.take(m as int), b.take(m as int))
}

/// Prover's first round: fold the `2^eta` rows of `message` with the weights
/// `eq(z_1, .)` of the first `eta` coordinates of `z`, then evaluate the folded
/// message against `eq(z_2, .)` of the remaining coordinates.
pub fn prover_first_round(message: &[KoalaBear], z: &[KoalaBear], eta: usize, k: usize) -> (r: ProverFirstMessage)
    requires
        z@.len() == k,
        eta <= k,
        k < 64,
        pow2(k as nat) <= usize::MAX,
        message@.len() >= pow2(k as nat),
    ensures
        r.folded_msg@ == folded(message@, eq_table(z@.take(eta as int)), pow2((k - eta) as nat) as int),
        r.y == dot(r.folded_msg@, eq_table(z@.skip(eta as int))),
        all_wf(message@) && all_wf(z@) ==> r.y == mle_eval(message@.take(pow2(k as nat) as int), z@),
{
    proof {
        if all_wf(message@) && all_wf(z@) {
            lemma_first_round_evaluation(message@, z@, eta as nat);
        }
        vstd::arithmetic::power2::lemma_pow2_adds(eta as nat, (k - eta) as nat);
        vstd::arithmetic::power2::lemma_pow2_pos(eta as nat);
        vstd::arithmetic::power2::lemma_pow2_pos((k - eta) as nat);
        if eta < k {
            vstd::arithmetic::power2::lemma_pow2_strictly_increases(eta as nat, k as nat);
        }
        if eta > 0 {
            vstd::arithmetic::power2::lemma_pow2_strictly_increases((k - eta) as nat, k as nat);
        }
    }
    let rows = pow2_usize(eta);
    let seg = pow2_usize(k - eta);
    let z1 = crate::copy_range(z, 0, eta);
    let z2 = crate::copy_range(z, eta, k);
    assert(z1@ =~= z@.take(eta as int));
    assert(z2@ =~= z@.skip(eta as int));
    let w1 = eq_weights(z1.as_slice());
    let ghost want = folded(message@, w1@, seg as int);
    let mut folded_msg: Vec<KoalaBear> = Vec::with_capacity(seg);
    let mut i: usize = 0;
    while i < seg
        invariant
            rows == pow2(eta as nat),
            seg == pow2((k - eta) as nat),
            rows * seg == pow2(k as nat),
            pow2(k as nat) <= usize::MAX,
            message@.len() >= pow2(k as nat),
            w1@.len() == rows,
            want == folded(message@, w1@, seg as int),
            i <= seg,
            folded_msg@ == want.take(i as int),
        decreases seg - i,
    {
        let ghost terms = Seq::new(w1@.len(), |r: int| w1@[r].spec_mul(message@[r * (seg as int) + i]));
        let mut acc = KoalaBear::zero();
        let mut r: usize = 0;
        while r < rows
            invariant
                rows == pow2(eta as nat),
                seg == pow2((k - eta) as nat),
                rows * seg == pow2(k as nat),
                pow2(k as nat) <= usize::MAX,
                message@.len() >= pow2(k as nat),
                w1@.len() == rows,
                i < seg,
                r <= rows,
                terms == Seq::new(w1@.len(), |r: int| w1@[r].spec_mul(message@[r * (seg as int) + i])),
                acc == sum(terms.take(r as int)),
            decreases rows - r,
        {
            proof {
                crate::vectors::lemma_grid_index(r as int, i as int, seg as int, rows as int);
                assert(r * seg + i < rows * seg);
                assert(r * seg + i < pow2(k as nat));
                lemma_sum_take_step(terms, r as int);
            }
            acc = acc.add(w1[r].mul(message[r * seg + i]));
            r += 1;
        }
        assert(terms.take(r as int) =~= terms);
        folded_msg.push(acc);
        i += 1;
        assert(folded_msg@ =~= want.take(i as int));
    }
    assert(want.take(i as int) =~= want);
    let w2 = eq_weights(z2.as_slice());
    let y = crate::codeswitching::claims::inner_product(folded_msg.as_slice(), w2.as_slice());
    ProverFirstMessage { folded_msg, y }
}

/// `2^e`.
pub fn pow2_usize(e: usize) -> (r: usize)
    requires
        e < 64,
        pow2(e as nat) <= usize::MAX,
    ensures
        r == pow2(e as nat),
{
    let mut r: usize = 1;
    let mut i: usize = 0;
    proof {
        vstd::arithmetic::power2::lemma2_to64();
    }
    while i < e
        invariant
            i <= e,
            r == pow2(i as nat),
            pow2(e as nat) <= usize::MAX,
        decreases e - i,
    {
        proof {
            vstd::arithmetic::power2::lemma_pow2_unfold((i + 1) as nat);
            if i + 1 < e {
                vstd::arithmetic::power2::lemma_pow2_strictly_increases((i + 1) as nat, e as nat);
            }
        }
        r = r * 2;
        i += 1;
    }
    r
}

/// The verifier draws `num_queries` column indices below `block_length` from `rng`.
pub fn verifier_challenge(block_length: usize, num_queries: usize, rng: &mut rand::rngs::SmallRng) -> (r:
    VerifierChallenge)
    requires
        num_queries > 0 ==> block_length > 0,
    ensures
        r.query_indices@.len() == num_queries,
        forall|i: int| 0 <= i < num_queries ==> #[trigger] r.query_indices@[i] < block_length,
{
    let mut query_indices: Vec<usize> = Vec::with_capacity(num_queries);
    let mut i: usize = 0;
    while i < num_queries
        invariant
            num_queries > 0 ==> block_length > 0,
            i <= num_queries,
            query_indices@.len() == i,
            forall|j: int| 0 <= j < i ==> #[trigger] query_indices@[j] < block_length,
        decreases num_queries - i,
    {
        let q = crate::rng::random_index_below(rng, block_length);
        query_indices.push(q);
        i += 1;
    }
    VerifierChallenge { query_indices }
}

/// The column `col` of the `rows` first segments.
pub open spec fn segment_column(segments: Seq<Vec<KoalaBear>>, rows: int, col: int) -> Seq<KoalaBear> {
    Seq::new(rows as nat, |r: int| segments[r]@[col])
}

/// Prover's second round: each queried column, one value from every row, and
/// its authentication path.
pub fn prover_second_round(
    segments: &[Vec<KoalaBear>],
    merkle_leaves: &[[u8; 32]],
    merkle_levels: &[Vec<[u8; 32]>],
    challenge: &VerifierChallenge,
    eta: usize,
) -> (r: ProverSecondMessage)
    requires
        eta < 64,
        pow2(eta as nat) <= usize::MAX,
        segments@.len() == pow2(eta as nat),
        forall|i: int, s: int|
            #![trigger challenge.query_indices@[i], segments@[s]]
            0 <= i < challenge.query_indices@.len() && 0 <= s < segments@.len() ==> challenge.query_indices@[i]
                < segments@[s]@.len(),
        is_pow2(merkle_leaves@.len()),
        merkle_leaves@.len() >= 2,
        merkle_levels@.len() == log2(merkle_leaves@.len()) + 1,
        forall|j: int|
            0 <= j < merkle_levels@.len() ==> dview((#[trigger] merkle_levels@[j])@) == level(
                dview(merkle_leaves@),
                j as nat,
            ),
        forall|i: int|
            0 <= i < challenge.query_indices@.len() ==> #[trigger] challenge.query_indices@[i]
                < merkle_leaves@.len(),
    ensures
        r.columns@.len() == challenge.query_indices@.len(),
        forall|i: int|
            0 <= i < r.columns@.len() ==> (#[trigger] r.columns@[i])@ == segment_column(
                segments@,
                segments@.len() as int,
                challenge.query_indices@[i] as int,
            ),
        r.merkle_paths@.len() == challenge.query_indices@.len(),
        forall|i: int|
            0 <= i < r.merkle_paths@.len() ==> dview((#[trigger] r.merkle_paths@[i])@) == open_path(
                dview(merkle_leaves@),
                challenge.query_indices@[i] as int,
            ),
{
    let rows = pow2_usize(eta);
    let q = &challenge.query_indices;
    let mut columns: Vec<Vec<KoalaBear>> = Vec::with_capacity(q.len());
    let mut i: usize = 0;
    while i < q.len()
        invariant
            rows == segments@.len(),
            q == challenge.query_indices,
            forall|i: int, s: int|
                #![trigger q@[i], segments@[s]]
                0 <= i < q@.len() && 0 <= s < segments@.len() ==> q@[i] < segments@[s]@.len(),
            i <= q@.len(),
            columns@.len() == i,
            forall|j: int|
                0 <= j < i ==> (#[trigger] columns@[j])@ == segment_column(segments@, rows as int, q@[j] as int),
        decreases q@.len() - i,
    {
        let idx = q[i];
        let mut col: Vec<KoalaBear> = Vec::with_capacity(rows);
        let mut r: usize = 0;
        while r < rows
            invariant
                rows == segments@.len(),
                i < q@.len(),
                idx == q@[i as int],
                forall|i: int, s: int|
                    #![trigger q@[i], segments@[s]]
                    0 <= i < q@.len() && 0 <= s < segments@.len() ==> q@[i] < segments@[s]@.len(),
                r <= rows,
                col@ == segment_column(segments@, rows as int, idx as int).take(r as int),
            decreases rows - r,
        {
            assert(idx < segments@[r as int]@.len());
            col.push(segments[r][idx]);
            r += 1;
            assert(col@ =~= segment_column(segments@, rows as int, idx as int).take(r as int));
        }
        assert(col@ =~= segment_column(segments@, rows as int, idx as int));
        columns.push(col);
        i += 1;
    }
    let merkle_paths = blake3_merkle_open_interleaved(merkle_leaves, merkle_levels, q.as_slice());
    ProverSecondMessage { columns, merkle_paths }
}

/// The limbs of a field element: its canonical value as one 64-bit limb.
pub open spec fn koala_limbs(x: KoalaBear) -> Seq<u64> {
    seq![x.val as u64]
}

/// The limbs of each element of `col`.
pub open spec fn column_limbs(col: Seq<KoalaBear>) -> Seq<Seq<u64>> {
    Seq::new(col.len(), |i: int| koala_limbs(col[i]))
}

/// The limbs of each element of `col`.
pub fn to_limbs(col: &Vec<KoalaBear>) -> (r: Vec<Vec<u64>>)
    ensures
        limb_views(r@) == column_limbs(col@),
{
    let mut out: Vec<Vec<u64>> = Vec::with_capacity(col.len());
    let mut i: usize = 0;
    while i < col.len()
        invariant
            i <= col@.len(),
            limb_views(out@) == column_limbs(col@).take(i as int),
        decreases col@.len() - i,
    {
        let mut l: Vec<u64> = Vec::new();
        l.push(col[i].val as u64);
        assert(l@ =~= koala_limbs(col@[i as int]));
        let ghost before = out@;
        out.push(l);
        assert(limb_views(out@) =~= limb_views(before).push(l@));
        i += 1;
        assert(limb_views(out@) =~= column_limbs(col@).take(i as int));
    }
    assert(column_limbs(col@).take(i as int) =~= column_limbs(col@));
    out
}

/// What the verifier checks, given the re-encoded folded message `cw`.
pub open spec fn iopp_accepts(
    z: Seq<KoalaBear>,
    eta: int,
    rows: int,
    root: Seq<u8>,
    first: ProverFirstMessage,
    challenge: VerifierChallenge,
    second: ProverSecondMessage,
    cw: Seq<KoalaBear>,
) -> bool {
    let q = challenge.query_indices@;
    let w1 = eq_table(z.take(eta));
    &&& second.columns@.len() == q.len()
    &&& second.merkle_paths@.len() == q.len()
    &&& forall|i: int|
        0 <= i < q.len() ==> {
            &&& (#[trigger] second.columns@[i])@.len() == rows
            &&& fold_path(leaf(column_limbs(second.columns@[i]@)), q[i] as int, dview(second.merkle_paths@[i]@))
                == root
            &&& q[i] < cw.len()
            &&& zip_dot(second.columns@[i]@, w1) == cw[q[i] as int]
        }
    &&& zip_dot(first.folded_msg@, eq_table(z.skip(eta))) == first.y
}

/// The inner product over the common prefix.
fn zip_inner_product(a: &[KoalaBear], b: &[KoalaBear]) -> (r: KoalaBear)
    ensures
        r == zip_dot(a@, b@),
{
    let m = if a.len() < b.len() {
        a.len()
    } else {
        b.len()
    };
    let a1 = crate::copy_range(a, 0, m);
    let b1 = crate::copy_range(b, 0, m);
    assert(a1@ =~= a@.take(m as int));
    assert(b1@ =~= b@.take(m as int));
    crate::codeswitching::claims::inner_product(a1.as_slice(), b1.as_slice())
}

/// The verifier's checks against the re-encoded folded message `folded_cw`:
/// every opened column has one value per row, leads to the committed root by
/// its path, and folds with `eq(z_1, .)` to the codeword entry at its index;
/// and the folded message evaluates to `y` against `eq(z_2, .)`.
pub fn verify_with_codeword(
    z: &[KoalaBear],
    eta: usize,
    k: usize,
    commitment_root: &[u8; 32],
    first_msg: &ProverFirstMessage,
    challenge: &VerifierChallenge,
    second_msg: &ProverSecondMessage,
    folded_cw: &[KoalaBear],
) -> (r: bool)
    requires
        z@.len() == k,
        eta <= k,
        k < 64,
        pow2(k as nat) <= usize::MAX,
    ensures
        r == iopp_accepts(
            z@,
            eta as int,
            pow2(eta as nat) as int,
            commitment_root@,
            *first_msg,
            *challenge,
            *second_msg,
            folded_cw@,
        ),
        r ==> forall|i: int|
            #![trigger challenge.query_indices@[i]]
            0 <= i < challenge.query_indices@.len() ==> {
                &&& challenge.query_indices@[i] < folded_cw@.len()
                &&& dot(second_msg.columns@[i]@, eq_table(z@.take(eta as int))) == folded_cw@[challenge.query_indices@[i] as int]
            },
{
    proof {
        if eta < k {
            vstd::arithmetic::power2::lemma_pow2_strictly_increases(eta as nat, k as nat);
        }
        if eta > 0 {
            vstd::arithmetic::power2::lemma_pow2_strictly_increases((k - eta) as nat, k as nat);
        }
    }
    let rows = pow2_usize(eta);
    let q = &challenge.query_indices;
    if second_msg.columns.len() != q.len() || second_msg.merkle_paths.len() != q.len() {
        return false;
    }
    let z1 = crate::copy_range(z, 0, eta);
    assert(z1@ =~= z@.take(eta as int));
    let w1 = eq_weights(z1.as_slice());
    let mut i: usize = 0;
    while i < q.len()
        invariant
            rows == pow2(eta as nat),
            q == challenge.query_indices,
            w1@ == eq_table(z@.take(eta as int)),
            second_msg.columns@.len() == q@.len(),
            second_msg.merkle_paths@.len() == q@.len(),
            i <= q@.len(),
            forall|j: int|
                0 <= j < i ==> {
                    &&& (#[trigger] second_msg.columns@[j])@.len() == rows
                    &&& fold_path(
                        leaf(column_limbs(second_msg.columns@[j]@)),
                        q@[j] as int,
                        dview(second_msg.merkle_paths@[j]@),
                    ) == commitment_root@
                    &&& q@[j] < folded_cw@.len()
                    &&& zip_dot(second_msg.columns@[j]@, w1@) == folded_cw@[q@[j] as int]
                },
        decreases q@.len() - i,
    {
        let col = &second_msg.columns[i];
        let path = &second_msg.merkle_paths[i];
        let idx = q[i];
        if col.len() != rows {
            return false;
        }
        let limbs = to_limbs(col);
        if !blake3_merkle_verify_interleaved_column(limbs.as_slice(), idx, path.as_slice(), commitment_root) {
            return false;
        }
        if idx >= folded_cw.len() {
            return false;
        }
        let folded_val = zip_inner_product(col.as_slice(), w1.as_slice());
        if folded_val != folded_cw[idx] {
            return false;
        }
        i += 1;
    }
    let z2 = crate::copy_range(z, eta, k);
    assert(z2@ =~= z@.skip(eta as int));
    let w2 = eq_weights(z2.as_slice());
    let eval = zip_inner_product(first_msg.folded_msg.as_slice(), w2.as_slice());
    let accepted = eval == first_msg.y;
    proof {
        if accepted {
            lemma_accepted_columns_fold(
                z@,
                eta as int,
                commitment_root@,
                *first_msg,
                *challenge,
                *second_msg,
                folded_cw@,
            );
        }
    }
    accepted
}

/// The verifier: re-encodes the folded message with `encode_fn` and runs the
/// checks of [`verify_with_codeword`] against that codeword.
pub fn verify<EncodeFn: Fn(&[KoalaBear]) -> Vec<KoalaBear>>(
    z: &[KoalaBear],
    eta: usize,
    k: usize,
    commitment_root: &[u8; 32],
    first_msg: &ProverFirstMessage,
    challenge: &VerifierChallenge,
    second_msg: &ProverSecondMessage,
    encode_fn: EncodeFn,
) -> (r: bool)
    requires
        z@.len() == k,
        eta <= k,
        k < 64,
        pow2(k as nat) <= usize::MAX,
        forall|s: &[KoalaBear]| #[trigger] call_requires(encode_fn, (s,)),
    ensures
        exists|s: &[KoalaBear], cw: Vec<KoalaBear>|
            s@ == first_msg.folded_msg@ && #[trigger] call_ensures(encode_fn, (s,), cw) && r == iopp_accepts(
                z@,
                eta as int,
                pow2(eta as nat) as int,
                commitment_root@,
                *first_msg,
                *challenge,
                *second_msg,
                cw@,
            ),
{
    let input = first_msg.folded_msg.as_slice();
    let folded_cw = encode_fn(input);
    let r = verify_with_codeword(
        z,
        eta,
        k,
        commitment_root,
        first_msg,
        challenge,
        second_msg,
        folded_cw.as_slice(),
    );
    assert(input@ == first_msg.folded_msg@);
    r
}


/// The prover's first-round value is the evaluation claim itself: folding the
/// `2^eta` rows of `msg` with `eq(z_1, .)` and pairing the result with
/// `eq(z_2, .)` gives the multilinear extension of the first `2^k` entries of
/// `msg` at `z = z_1 z_2`.
pub proof fn lemma_first_round_evaluation(msg: Seq<KoalaBear>, z: Seq<KoalaBear>, eta: nat)
    requires
        eta <= z.len(),
        msg.len() >= pow2(z.len()),
        all_wf(msg),
        all_wf(z),
    ensures
        dot(folded(msg, eq_table(z.take(eta as int)), pow2((z.len() - eta) as nat) as int), eq_table(z.skip(eta as int)))
            == mle_eval(msg.take(pow2(z.len()) as int), z),
{
    let k = z.len();
    let z1 = z.take(eta as int);
    let z2 = z.skip(eta as int);
    let rr = pow2(eta);
    let ss = pow2((k - eta) as nat);
    vstd::arithmetic::power2::lemma_pow2_adds(eta, (k - eta) as nat);
    vstd::arithmetic::power2::lemma_pow2_pos((k - eta) as nat);
    assert(rr * ss == pow2(k));
    let t = msg.take(pow2(k) as int);
    assert(all_wf(t));
    lemma_eq_eval(t, z);
    assert(z1 + z2 =~= z);
    let e1 = eq_table(z1);
    let e2 = eq_table(z2);
    let e = eq_table(z);
    lemma_eq_len(z1);
    lemma_eq_len(z2);
    lemma_eq_len(z);
    // The left side over the integers.
    let g = |x: int| e1[x / (ss as int)].v() * e2[x % (ss as int)].v() * t[x].v();
    assert forall|x: int| 0 <= x < e.len() implies #[trigger] hadamard(e, t)[x] == fe(g(x)) by {
        lemma_grid_coords(x, ss as int, rr as int);
        let r = x / (ss as int);
        let c = x % (ss as int);
        lemma_eq_tensor(z1, z2, r, c);
        assert(e[x] == e1[r].spec_mul(e2[c]));
        lemma_mul_l(e1[r].v() * e2[c].v(), t[x]);
    }
    lemma_sum_terms(hadamard(e, t), g);
    // The right side over the integers.
    let m = |i: int, c: int| e1[i].v() * msg[i * ss + c].v();
    let fint = col_sums(rr, m);
    let fo = folded(msg, e1, ss as int);
    assert forall|c: int| 0 <= c < ss implies #[trigger] fo[c] == fe(fint(c)) by {
        let terms = Seq::new(e1.len(), |i: int| e1[i].spec_mul(msg[i * ss + c]));
        lemma_sum_terms(terms, |i: int| m(i, c));
    }
    let h2 = |c: int| fint(c) * e2[c].v();
    assert forall|c: int| 0 <= c < ss implies #[trigger] hadamard(fo, e2)[c] == fe(h2(c)) by {
        lemma_mul_l(fint(c), e2[c]);
    }
    lemma_sum_terms(hadamard(fo, e2), h2);
    // The two integer sums agree: split into rows, swap the order, factor out `eq(z_2)`.
    lemma_isum_blocks(rr, ss, g);
    let hh = |i: int, c: int| e2[c].v() * m(i, c);
    assert forall|i: int| 0 <= i < rr implies #[trigger] block_sums(ss, g)(i) == row_sums(ss, hh)(i) by {
        assert forall|c: int| 0 <= c < ss implies #[trigger] shifted(i * ss, g)(c) == hh(i, c) by {
            lemma_grid_index(i, c, ss as int, rr as int);
            assert(e1[i].v() * e2[c].v() * msg[i * ss + c].v() == e2[c].v() * (e1[i].v() * msg[i * ss + c].v()))
                by (nonlinear_arith);
        }
        lemma_isum_ext(ss, shifted(i * ss, g), |c: int| hh(i, c));
    }
    lemma_isum_ext(rr, block_sums(ss, g), row_sums(ss, hh));
    lemma_isum_swap(rr, ss, hh);
    assert forall|c: int| 0 <= c < ss implies #[trigger] col_sums(rr, hh)(c) == h2(c) by {
        let x = e2[c].v();
        let f = |i: int| m(i, c);
        lemma_isum_scale(rr, x, f);
        lemma_isum_ext(rr, |i: int| hh(i, c), |b: int| x * f(b));
        assert(col_sums(rr, hh)(c) == isum_g(rr, |i: int| hh(i, c)));
        assert(fint(c) == isum_g(rr, f));
        let y = fint(c);
        assert(x * y == y * x) by (nonlinear_arith);
    }
    lemma_isum_ext(ss, col_sums(rr, hh), h2);
    assert(e.len() == rr * ss);
}

/// The `w`-weighted sum of the committed rows at column `c`:
/// `sum_r w_r segments[r][c]`.
pub open spec fn folded_column(segments: Seq<Vec<KoalaBear>>, w: Seq<KoalaBear>, c: int) -> KoalaBear {
    sum(Seq::new(segments.len(), |r: int| w[r].spec_mul(segments[r]@[c])))
}

/// Completeness: an honest run is accepted. Let the opened columns be the
/// columns of the committed rows, each leaf the digest of its column and each
/// path opened from those leaves, and the first message the prover's. If the
/// re-encoded folded message is, at every queried index, the `eq(z_1, .)`-weighted
/// sum of the committed rows there (as a linear code gives when each row is a
/// codeword), the verifier's checks all pass against the root of the leaves.
pub proof fn lemma_honest_run_accepted(
    z: Seq<KoalaBear>,
    eta: nat,
    segments: Seq<Vec<KoalaBear>>,
    leaves: Seq<Seq<u8>>,
    first: ProverFirstMessage,
    challenge: VerifierChallenge,
    second: ProverSecondMessage,
    cw: Seq<KoalaBear>,
)
    requires
        eta <= z.len(),
        segments.len() == pow2(eta),
        is_pow2(leaves.len()),
        leaves.len() >= 2,
        first.folded_msg@.len() == pow2((z.len() - eta) as nat),
        first.y == dot(first.folded_msg@, eq_table(z.skip(eta as int))),
        second.columns@.len() == challenge.query_indices@.len(),
        second.merkle_paths@.len() == challenge.query_indices@.len(),
        forall|i: int|
            0 <= i < challenge.query_indices@.len() ==> {
                let c = #[trigger] challenge.query_indices@[i] as int;
                &&& c < leaves.len()
                &&& c < cw.len()
                &&& second.columns@[i]@ == segment_column(segments, segments.len() as int, c)
                &&& dview(second.merkle_paths@[i]@) == open_path(leaves, c)
                &&& leaves[c] == leaf(column_limbs(segment_column(segments, segments.len() as int, c)))
                &&& cw[c] == folded_column(segments, eq_table(z.take(eta as int)), c)
            },
    ensures
        iopp_accepts(z, eta as int, pow2(eta) as int, merkle_root(leaves), first, challenge, second, cw),
{
    let q = challenge.query_indices@;
    let rows = pow2(eta);
    let w1 = eq_table(z.take(eta as int));
    let w2 = eq_table(z.skip(eta as int));
    lemma_eq_len(z.take(eta as int));
    lemma_eq_len(z.skip(eta as int));
    assert(first.folded_msg@.take(first.folded_msg@.len() as int) =~= first.folded_msg@);
    assert(w2.take(w2.len() as int) =~= w2);
    assert forall|i: int| 0 <= i < q.len() implies {
        &&& (#[trigger] second.columns@[i])@.len() == rows
        &&& fold_path(leaf(column_limbs(second.columns@[i]@)), q[i] as int, dview(second.merkle_paths@[i]@))
            == merkle_root(leaves)
        &&& q[i] < cw.len()
        &&& zip_dot(second.columns@[i]@, w1) == cw[q[i] as int]
    } by {
        let c = q[i] as int;
        let col = segment_column(segments, rows as int, c);
        assert(q[i] == challenge.query_indices@[i]);
        lemma_open_then_verify(leaves, c);
        assert(col.take(rows as int) =~= col);
        assert(w1.take(rows as int) =~= w1);
        assert forall|r: int| 0 <= r < rows implies #[trigger] hadamard(col, w1)[r] == w1[r].spec_mul(
            segments[r]@[c],
        ) by {
            lemma_mul_comm(col[r], w1[r]);
        }
        assert(hadamard(col, w1) =~= Seq::new(segments.len(), |r: int| w1[r].spec_mul(segments[r]@[c])));
    }
}

/// An accepted opening is consistent with the commitment, the re-encoded
/// folded message and the claim: every opened column has one entry per row,
/// its leaf digest leads along its path to the committed root, and folded with
/// the weights `eq(z_1, .)` it gives the entry of the folded codeword at its
/// queried index; and the claimed value is the folded message's inner
/// product with `eq(z_2, .)`.
pub proof fn lemma_accepted_columns_fold(
    z: Seq<KoalaBear>,
    eta: int,
    root: Seq<u8>,
    first: ProverFirstMessage,
    challenge: VerifierChallenge,
    second: ProverSecondMessage,
    cw: Seq<KoalaBear>,
)
    requires
        0 <= eta <= z.len(),
        iopp_accepts(z, eta, pow2(eta as nat) as int, root, first, challenge, second, cw),
    ensures
        forall|i: int|
            #![trigger challenge.query_indices@[i]]
            0 <= i < challenge.query_indices@.len() ==> {
                &&& challenge.query_indices@[i] < cw.len()
                &&& dot(second.columns@[i]@, eq_table(z.take(eta))) == cw[challenge.query_indices@[i] as int]
                &&& second.columns@[i]@.len() == pow2(eta as nat)
                &&& fold_path(
                    leaf(column_limbs(second.columns@[i]@)),
                    challenge.query_indices@[i] as int,
                    dview(second.merkle_paths@[i]@),
                ) == root
            },
        first.y == zip_dot(first.folded_msg@, eq_table(z.skip(eta))),
{
    let w1 = eq_table(z.take(eta));
    lemma_eq_len(z.take(eta));
    assert forall|i: int|
        #![trigger challenge.query_indices@[i]]
        0 <= i < challenge.query_indices@.len() implies challenge.query_indices@[i] < cw.len() && dot(
        second.columns@[i]@,
        w1,
    ) == cw[challenge.query_indices@[i] as int] by {
        let col = second.columns@[i]@;
        assert(challenge.query_indices@[i] < cw.len());
        assert(col.len() == pow2(eta as nat));
        assert(z.take(eta).len() == eta);
        assert(w1.len() == pow2(eta as nat));
        assert(zip_dot(col, w1) == cw[challenge.query_indices@[i] as int]);
        assert(col.len() == w1.len());
        assert(col.take(col.len() as int) =~= col);
        assert(w1.take(w1.len() as int) =~= w1);
    }
}

} // verus!
