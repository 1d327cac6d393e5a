//! Brakedown linear-code encoding: a recursion of sparse-matrix products.
//!
//! The real-valued parameters of the construction (the fractions `alpha` and
//! the inverse rate) only decide the sizes of each recursion level.  Those
//! sizes are given here as a [`BrakedownLevel`] schedule of integers.
use vstd::prelude::*;

use crate::field::KoalaBear;
use crate::vectors::all_wf;
use crate::{sparse_mat_vec, sparse_product, sparse_shape_ok, ErrorCorrectingCode, SparseMatEntry};

verus! {

/// The sizes at one level of the recursion: the message `x`, the compressed
/// vector `y = E1 x`, its encoding `z` and the tail `v = E2 z`.
#[derive(Debug, Clone, Copy, PartialEq, Eq, Structural)]
pub struct BrakedownLevel {
    pub msg_length: usize,
    pub y_length: usize,
    pub z_length: usize,
    pub v_length: usize,
}

/// The codeword length at a level: `x`, then `z`, then `v`.
pub open spec fn level_codeword_length(l: BrakedownLevel) -> nat {
    (l.msg_length + l.z_length + l.v_length) as nat
}

/// Entries per output of `E1`: `cn * y / x + 1`.
pub open spec fn nnz_e1(l: BrakedownLevel, cn: nat) -> nat {
    ((cn * l.y_length) as nat) / (l.msg_length as nat) + 1
}

/// Entries per output of `E2`: `dn * v / z + 1`.
pub open spec fn nnz_e2(l: BrakedownLevel, dn: nat) -> nat {
    ((dn * l.v_length) as nat) / (l.z_length as nat) + 1
}

/// Level `d` recurses: `y` is non-empty, so `z` encodes it at level `d + 1`.
pub open spec fn level_ok(levels: Seq<BrakedownLevel>, d: int, cn: nat, dn: nat) -> bool {
    let l = levels[d];
    if d + 1 < levels.len() {
        &&& l.y_length >= 1
        &&& l.msg_length >= 1
        &&& l.z_length >= 1
        &&& levels[d + 1].msg_length == l.y_length
        &&& l.z_length as nat == level_codeword_length(levels[d + 1])
        &&& cn * l.y_length < usize::MAX
        &&& dn * l.v_length < usize::MAX
    } else {
        &&& l.y_length == 0
        &&& l.z_length == 0
    }
}

/// A schedule of levels for a message of `message_size` elements: each level
/// but the last recurses on its `y`, the last one has an empty `y`, and every
/// codeword length fits in `usize`.
pub open spec fn schedule_ok(levels: Seq<BrakedownLevel>, message_size: nat, cn: nat, dn: nat) -> bool {
    &&& levels.len() >= 1
    &&& levels[0].msg_length == message_size
    &&& forall|d: int| 0 <= d < levels.len() ==> #[trigger] level_ok(levels, d, cn, dn)
    &&& forall|d: int| 0 <= d < levels.len() ==> #[trigger] level_codeword_length(levels[d]) <= usize::MAX
}

/// The codeword of `msg` at level `d`: `msg`, then the encoding `z` of
/// `y = E1 msg` at level `d + 1`, then `E2 z`; at the last level, `msg`
/// followed by the fixed tail `base`.
pub open spec fn brakedown_encode(
    levels: Seq<BrakedownLevel>,
    e1: Seq<Seq<SparseMatEntry>>,
    e2: Seq<Seq<SparseMatEntry>>,
    base: Seq<KoalaBear>,
    cn: nat,
    dn: nat,
    msg: Seq<KoalaBear>,
    d: int,
) -> Seq<KoalaBear>
    decreases levels.len() - d,
{
    if d + 1 >= levels.len() || d < 0 {
        msg + base
    } else {
        let l = levels[d];
        let y = sparse_product(msg, e1[d], l.y_length as nat, nnz_e1(l, cn));
        let z = brakedown_encode(levels, e1, e2, base, cn, dn, y, d + 1);
        msg + z + sparse_product(z, e2[d], l.v_length as nat, nnz_e2(l, dn))
    }
}

/// A Brakedown code: its level schedule, the sparse matrices `E1` and `E2` of
/// every recursing level, and the random tail of the last level.
#[derive(Debug)]
pub struct BrakedownCode {
    message_size: usize,
    cn: usize,
    dn: usize,
    levels: Vec<BrakedownLevel>,
    e1: Vec<Vec<SparseMatEntry>>,
    e2: Vec<Vec<SparseMatEntry>>,
    base_vals: Vec<KoalaBear>,
}

/// `out_len * nnz` entries drawn from `rng`, `nnz` per output in turn, each
/// with a row below `rows` and a reduced value.
pub open spec fn random_matrix_shape(e: Seq<SparseMatEntry>, out_len: nat, nnz: nat, rows: nat) -> bool {
    &&& e.len() == out_len * nnz
    &&& forall|k: int| 0 <= k < e.len() ==> (#[trigger] e[k]).row < rows && e[k].val.wf()
}

/// Draws a sparse matrix with `nnz` entries for each of `out_len` outputs: for
/// each entry a row below `rows`, then a value.
fn random_sparse_matrix(rng: &mut rand::rngs::SmallRng, out_len: usize, nnz: usize, rows: usize) -> (r: Vec<
    SparseMatEntry,
>)
    requires
        out_len > 0 ==> rows > 0,
    ensures
        random_matrix_shape(r@, out_len as nat, nnz as nat, rows as nat),
{
    let mut e: Vec<SparseMatEntry> = Vec::new();
    let mut i: usize = 0;
    while i < out_len
        invariant
            i <= out_len,
            out_len > 0 ==> rows > 0,
            e@.len() == i * nnz,
            forall|k: int| 0 <= k < e@.len() ==> (#[trigger] e@[k]).row < rows && e@[k].val.wf(),
        decreases out_len - i,
    {
        let mut j: usize = 0;
        while j < nnz
            invariant
                i < out_len,
                rows > 0,
                j <= nnz,
                e@.len() == i * nnz + j,
                forall|k: int| 0 <= k < e@.len() ==> (#[trigger] e@[k]).row < rows && e@[k].val.wf(),
            decreases nnz - j,
        {
            let row = crate::rng::random_index_below(rng, rows);
            let val = KoalaBear::random(rng);
            e.push(SparseMatEntry { row, col: i, val });
            j += 1;
        }
        proof {
            vstd::arithmetic::mul::lemma_mul_is_distributive_add_other_way(nnz as int, i as int, 1);
        }
        i += 1;
    }
    e
}

/// `n` field elements drawn from `rng` in turn.
fn random_vector(rng: &mut rand::rngs::SmallRng, n: usize) -> (r: Vec<KoalaBear>)
    ensures
        r@.len() == n,
        all_wf(r@),
{
    let mut out: Vec<KoalaBear> = Vec::with_capacity(n);
    let mut i: usize = 0;
    while i < n
        invariant
            i <= n,
            out@.len() == i,
            all_wf(out@),
        decreases n - i,
    {
        out.push(KoalaBear::random(rng));
        i += 1;
    }
    out
}

proof fn lemma_shape_ok(e: Seq<SparseMatEntry>, out_len: nat, nnz: nat, rows: nat)
    requires
        random_matrix_shape(e, out_len, nnz, rows),
    ensures
        sparse_shape_ok(rows, e, out_len, nnz),
{
    assert forall|k: int| 0 <= k < out_len * nnz implies (#[trigger] e[k]).row < rows by {}
}

impl BrakedownCode {
    pub closed spec fn spec_levels(&self) -> Seq<BrakedownLevel> {
        self.levels@
    }

    pub closed spec fn spec_cn(&self) -> nat {
        self.cn as nat
    }

    pub closed spec fn spec_dn(&self) -> nat {
        self.dn as nat
    }

    pub closed spec fn spec_e1(&self) -> Seq<Seq<SparseMatEntry>> {
        self.e1@.map_values(|m: Vec<SparseMatEntry>| m@)
    }

    pub closed spec fn spec_e2(&self) -> Seq<Seq<SparseMatEntry>> {
        self.e2@.map_values(|m: Vec<SparseMatEntry>| m@)
    }

    pub closed spec fn spec_base_vals(&self) -> Seq<KoalaBear> {
        self.base_vals@
    }

    pub closed spec fn spec_message_size(&self) -> nat {
        self.message_size as nat
    }

    /// The schedule is sound for the message size and every matrix has the
    /// shape of its level.
    #[verifier::type_invariant]
    pub closed spec fn wf(&self) -> bool {
        let levels = self.levels@;
        &&& schedule_ok(levels, self.message_size as nat, self.cn as nat, self.dn as nat)
        &&& self.e1@.len() == levels.len()
        &&& self.e2@.len() == levels.len()
        &&& forall|d: int|
            0 <= d < levels.len() - 1 ==> random_matrix_shape(
                #[trigger] self.e1@[d]@,
                levels[d].y_length as nat,
                nnz_e1(levels[d], self.cn as nat),
                levels[d].msg_length as nat,
            ) && random_matrix_shape(
                self.e2@[d]@,
                levels[d].v_length as nat,
                nnz_e2(levels[d], self.dn as nat),
                levels[d].z_length as nat,
            )
        &&& self.base_vals@.len() == levels[levels.len() - 1].v_length
    }

    /// The codeword of `msg` at level `d`.
    pub open spec fn encode_at(&self, msg: Seq<KoalaBear>, d: int) -> Seq<KoalaBear> {
        brakedown_encode(
            self.spec_levels(),
            self.spec_e1(),
            self.spec_e2(),
            self.spec_base_vals(),
            self.spec_cn(),
            self.spec_dn(),
            msg,
            d,
        )
    }

    /// The codeword at level `d` has that level's codeword length.
    proof fn lemma_encode_at_len(&self, msg: Seq<KoalaBear>, d: int)
        requires
            self.wf(),
            0 <= d < self.spec_levels().len(),
            msg.len() == self.spec_levels()[d].msg_length,
        ensures
            self.encode_at(msg, d).len() == level_codeword_length(self.spec_levels()[d]),
        decreases self.spec_levels().len() - d,
    {
        let levels = self.spec_levels();
        assert(level_ok(levels, d, self.cn as nat, self.dn as nat));
        if d + 1 < levels.len() {
            let l = levels[d];
            let y = sparse_product(msg, self.spec_e1()[d], l.y_length as nat, nnz_e1(l, self.cn as nat));
            self.lemma_encode_at_len(y, d + 1);
        } else {
            assert(d == levels.len() - 1);
        }
    }

    /// Builds the code for the level schedule `levels`: for each recursing
    /// level, `E1` (rows in the message) and then `E2` (rows in `z`); for the
    /// last level, its tail of `v_length` random elements.
    pub fn new(
        message_size: usize,
        cn: usize,
        dn: usize,
        levels: Vec<BrakedownLevel>,
        rng: &mut rand::rngs::SmallRng,
    ) -> (r: BrakedownCode)
        requires
            schedule_ok(levels@, message_size as nat, cn as nat, dn as nat),
        ensures
            r.wf(),
            r.spec_message_size() == message_size,
            r.spec_levels() == levels@,
            r.spec_cn() == cn,
            r.spec_dn() == dn,
            all_wf(r.spec_base_vals()),
    {
        let n_levels = levels.len();
        let mut e1: Vec<Vec<SparseMatEntry>> = Vec::new();
        let mut e2: Vec<Vec<SparseMatEntry>> = Vec::new();
        let mut base_vals: Vec<KoalaBear> = Vec::new();
        let mut d: usize = 0;
        while d < n_levels
            invariant
                n_levels == levels@.len(),
                d <= n_levels,
                schedule_ok(levels@, message_size as nat, cn as nat, dn as nat),
                e1@.len() == d,
                e2@.len() == d,
                forall|j: int|
                    0 <= j < d && j < n_levels - 1 ==> random_matrix_shape(
                        #[trigger] e1@[j]@,
                        levels@[j].y_length as nat,
                        nnz_e1(levels@[j], cn as nat),
                        levels@[j].msg_length as nat,
                    ),
                forall|j: int|
                    0 <= j < d && j < n_levels - 1 ==> random_matrix_shape(
                        #[trigger] e2@[j]@,
                        levels@[j].v_length as nat,
                        nnz_e2(levels@[j], dn as nat),
                        levels@[j].z_length as nat,
                    ),
                d < n_levels ==> base_vals@.len() == 0,
                d == n_levels ==> base_vals@.len() == levels@[n_levels - 1].v_length,
                all_wf(base_vals@),
            decreases n_levels - d,
        {
            let l = levels[d];
            assert(level_ok(levels@, d as int, cn as nat, dn as nat));
            if l.y_length >= 1 {
                let nnz1 = cn * l.y_length / l.msg_length + 1;
                let level_e1 = random_sparse_matrix(rng, l.y_length, nnz1, l.msg_length);
                let nnz2 = dn * l.v_length / l.z_length + 1;
                let level_e2 = random_sparse_matrix(rng, l.v_length, nnz2, l.z_length);
                let ghost old_e1 = e1@;
                let ghost old_e2 = e2@;
                e1.push(level_e1);
                e2.push(level_e2);
                proof {
                    assert(nnz1 == nnz_e1(l, cn as nat));
                    assert(nnz2 == nnz_e2(l, dn as nat));
                    assert forall|j: int|
                        0 <= j < d + 1 && j < n_levels - 1 implies random_matrix_shape(
                        #[trigger] e2@[j]@,
                        levels@[j].v_length as nat,
                        nnz_e2(levels@[j], dn as nat),
                        levels@[j].z_length as nat,
                    ) by {
                        if j < d {
                            assert(e2@[j] == old_e2[j]);
                        }
                    }
                    assert forall|j: int|
                        0 <= j < d + 1 && j < n_levels - 1 implies random_matrix_shape(
                        #[trigger] e1@[j]@,
                        levels@[j].y_length as nat,
                        nnz_e1(levels@[j], cn as nat),
                        levels@[j].msg_length as nat,
                    ) by {
                        if j < d {
                            assert(e1@[j] == old_e1[j]);
                            assert(e2@[j] == old_e2[j]);
                        }
                    }
                }
            } else {
                base_vals = random_vector(rng, l.v_length);
                let ghost old_e1 = e1@;
                let ghost old_e2 = e2@;
                e1.push(Vec::new());
                e2.push(Vec::new());
                proof {
                    assert(d == n_levels - 1);
                    assert forall|j: int|
                        0 <= j < d + 1 && j < n_levels - 1 implies random_matrix_shape(
                        #[trigger] e2@[j]@,
                        levels@[j].v_length as nat,
                        nnz_e2(levels@[j], dn as nat),
                        levels@[j].z_length as nat,
                    ) by {
                        if j < d {
                            assert(e2@[j] == old_e2[j]);
                        }
                    }
                    assert forall|j: int|
                        0 <= j < d + 1 && j < n_levels - 1 implies random_matrix_shape(
                        #[trigger] e1@[j]@,
                        levels@[j].y_length as nat,
                        nnz_e1(levels@[j], cn as nat),
                        levels@[j].msg_length as nat,
                    ) by {
                        assert(e1@[j] == old_e1[j]);
                        assert(e2@[j] == old_e2[j]);
                    }
                }
            }
            d += 1;
        }
        BrakedownCode { message_size, cn, dn, levels, e1, e2, base_vals }
    }

    /// Returns the message size this code was built for.
    pub fn message_size(&self) -> (r: usize)
        ensures
            r == self.spec_message_size(),
    {
        self.message_size
    }

    /// Returns the codeword length: that of the first level.
    pub fn codeword_length(&self) -> (r: usize)
        ensures
            r == level_codeword_length(self.spec_levels()[0]),
    {
        proof {
            use_type_invariant(self);
        }
        assert(level_codeword_length(self.levels@[0]) <= usize::MAX);
        let l = self.levels[0];
        l.msg_length + l.z_length + l.v_length
    }

    /// The codeword of `msg` at level `depth`.
    fn encode_recursive(&self, msg: &[KoalaBear], depth: usize) -> (r: Vec<KoalaBear>)
        requires
            depth < self.spec_levels().len(),
            msg@.len() == self.spec_levels()[depth as int].msg_length,
        ensures
            r@ == self.encode_at(msg@, depth as int),
        decreases self.spec_levels().len() - depth,
    {
        proof {
            use_type_invariant(self);
        }
        let ghost levels = self.levels@;
        let l = self.levels[depth];
        assert(level_ok(levels, depth as int, self.cn as nat, self.dn as nat));
        let mut x: Vec<KoalaBear> = crate::copy_range(msg, 0, msg.len());
        assert(x@ =~= msg@);
        let n_levels = self.levels.len();
        if depth + 1 < n_levels {
            let nnz1 = self.cn * l.y_length / l.msg_length + 1;
            proof {
                lemma_shape_ok(self.e1@[depth as int]@, l.y_length as nat, nnz1 as nat, l.msg_length as nat);
            }
            let y = sparse_mat_vec(msg, &self.e1[depth], l.y_length, nnz1);
            let z = self.encode_recursive(&y, depth + 1);
            proof {
                self.lemma_encode_at_len(y@, depth + 1);
            }
            let nnz2 = self.dn * l.v_length / l.z_length + 1;
            proof {
                lemma_shape_ok(self.e2@[depth as int]@, l.v_length as nat, nnz2 as nat, l.z_length as nat);
            }
            let v = sparse_mat_vec(&z, &self.e2[depth], l.v_length, nnz2);
            let mut zc = z;
            let mut vc = v;
            x.append(&mut zc);
            x.append(&mut vc);
            proof {
                assert(self.spec_e1()[depth as int] == self.e1@[depth as int]@);
                assert(self.spec_e2()[depth as int] == self.e2@[depth as int]@);
            }
        } else {
            let mut tail: Vec<KoalaBear> = crate::copy_range(&self.base_vals, 0, self.base_vals.len());
            assert(tail@ =~= self.base_vals@);
            x.append(&mut tail);
        }
        x
    }

    /// Encodes a single message (row).
    pub fn encode(&self, msg: &[KoalaBear]) -> (r: Vec<KoalaBear>)
        requires
            msg@.len() == self.spec_message_size(),
        ensures
            r@ == self.encode_at(msg@, 0),
    {
        proof {
            use_type_invariant(self);
        }
        self.encode_recursive(msg, 0)
    }
}

impl ErrorCorrectingCode for BrakedownCode {
    open spec fn inv(&self) -> bool {
        self.wf()
    }

    open spec fn spec_message_size(&self) -> nat {
        self.spec_message_size()
    }

    open spec fn spec_block_length(&self) -> nat {
        level_codeword_length(self.spec_levels()[0])
    }

    open spec fn spec_encode(&self, msg: Seq<KoalaBear>) -> Seq<KoalaBear> {
        self.encode_at(msg, 0)
    }

    proof fn lemma_encode_len(&self, msg: Seq<KoalaBear>) {
        self.lemma_encode_at_len(msg, 0);
    }

    fn message_size(&self) -> (r: usize) {
        self.message_size
    }

    fn block_length(&self) -> (r: usize) {
        proof {
            use_type_invariant(self);
        }
        self.codeword_length()
    }

    fn encode(&self, msg: &[KoalaBear]) -> (r: Vec<KoalaBear>) {
        proof {
            use_type_invariant(self);
        }
        self.encode_recursive(msg, 0)
    }
}

} // verus!
