//! Sums, products and rearrangements of vectors of field elements, as
//! mathematical sequences, with the lemmas that relate them to integer sums.
use vstd::arithmetic::div_mod::*;
use vstd::prelude::*;

use crate::field::{fe, KoalaBear, P};

verus! {

/// `x mod p` of the integer reading of `a`.
pub proof fn lemma_fe_v(x: int)
    ensures
        fe(x).v() == x % (P as int),
        fe(x).wf(),
{
    lemma_mod_bound(x, P as int);
}

/// Field addition of reduced integers is the reduction of their sum.
pub proof fn lemma_fe_add(x: int, y: int)
    ensures
        fe(x).spec_add(fe(y)) == fe(x + y),
{
    lemma_fe_v(x);
    lemma_fe_v(y);
    lemma_add_mod_noop(x, y, P as int);
}

/// Field subtraction of reduced integers is the reduction of their difference.
pub proof fn lemma_fe_sub(x: int, y: int)
    ensures
        fe(x).spec_sub(fe(y)) == fe(x - y),
{
    lemma_fe_v(x);
    lemma_fe_v(y);
    lemma_sub_mod_noop(x, y, P as int);
}

/// Field multiplication of reduced integers is the reduction of their product.
pub proof fn lemma_fe_mul(x: int, y: int)
    ensures
        fe(x).spec_mul(fe(y)) == fe(x * y),
{
    lemma_fe_v(x);
    lemma_fe_v(y);
    lemma_mul_mod_noop(x, y, P as int);
}

/// Field negation of a reduced integer is the reduction of its negation.
pub proof fn lemma_fe_neg(x: int)
    ensures
        fe(x).spec_neg() == fe(-x),
{
    lemma_fe_v(x);
    lemma_sub_mod_noop(0, x, P as int);
    lemma_small_mod(0, P as nat);
}

/// Field multiplication commutes.
pub proof fn lemma_mul_comm(a: KoalaBear, b: KoalaBear)
    ensures
        a.spec_mul(b) == b.spec_mul(a),
{
    vstd::arithmetic::mul::lemma_mul_is_commutative(a.v(), b.v());
}

/// Field addition commutes.
pub proof fn lemma_add_comm(a: KoalaBear, b: KoalaBear)
    ensures
        a.spec_add(b) == b.spec_add(a),
{
}

/// A canonical element is the reduction of its own value.
pub proof fn lemma_fe_canonical(a: KoalaBear)
    requires
        a.wf(),
    ensures
        fe(a.v()) == a,
{
    lemma_small_mod(a.val as nat, P as nat);
}

/// Integers congruent modulo `p` reduce to the same element.
pub proof fn lemma_fe_congruent(x: int, y: int)
    requires
        (x - y) % (P as int) == 0,
    ensures
        fe(x) == fe(y),
{
    lemma_fundamental_div_mod(x - y, P as int);
    lemma_mod_multiples_vanish((x - y) / (P as int), y, P as int);
}

/// The left-to-right field sum of `s`.
pub open spec fn sum(s: Seq<KoalaBear>) -> KoalaBear
    decreases s.len(),
{
    if s.len() == 0 {
        fe(0)
    } else {
        sum(s.drop_last()).spec_add(s.last())
    }
}

/// The integer sum of the values held by `s`.
pub open spec fn isum(s: Seq<KoalaBear>) -> int
    decreases s.len(),
{
    if s.len() == 0 {
        0
    } else {
        isum(s.drop_last()) + s.last().v()
    }
}

/// The field sum is the reduction of the integer sum.
pub proof fn lemma_sum_fe(s: Seq<KoalaBear>)
    ensures
        sum(s) == fe(isum(s)),
    decreases s.len(),
{
    if s.len() == 0 {
    } else {
        lemma_sum_fe(s.drop_last());
        lemma_fe_v(isum(s.drop_last()));
        lemma_add_mod_noop(isum(s.drop_last()), s.last().v(), P as int);
        lemma_mod_twice(isum(s.drop_last()), P as int);
        lemma_add_mod_noop(isum(s.drop_last()) % (P as int), s.last().v(), P as int);
    }
}

/// One more step of a running sum.
pub proof fn lemma_sum_take_step(s: Seq<KoalaBear>, i: int)
    requires
        0 <= i < s.len(),
    ensures
        sum(s.take(i + 1)) == sum(s.take(i)).spec_add(s[i]),
{
    assert(s.take(i + 1).drop_last() =~= s.take(i));
}

/// Sum of a concatenation.
pub proof fn lemma_isum_append(a: Seq<KoalaBear>, b: Seq<KoalaBear>)
    ensures
        isum(a + b) == isum(a) + isum(b),
    decreases b.len(),
{
    if b.len() == 0 {
        assert(a + b =~= a);
    } else {
        assert((a + b).drop_last() =~= a + b.drop_last());
        lemma_isum_append(a, b.drop_last());
    }
}

/// The pointwise product of two sequences.
pub open spec fn hadamard(a: Seq<KoalaBear>, b: Seq<KoalaBear>) -> Seq<KoalaBear> {
    Seq::new(a.len(), |i: int| a[i].spec_mul(b[i]))
}

/// The inner product `sum_i a_i b_i` over the field.
pub open spec fn dot(a: Seq<KoalaBear>, b: Seq<KoalaBear>) -> KoalaBear {
    sum(hadamard(a, b))
}

/// The running sums `(a_0, a_0 + a_1, ...)`.
pub open spec fn prefix_sums(s: Seq<KoalaBear>) -> Seq<KoalaBear> {
    Seq::new(s.len(), |i: int| sum(s.take(i + 1)))
}

/// The running products `(a_0, a_0 a_1, ...)`.
pub open spec fn prefix_products(s: Seq<KoalaBear>) -> Seq<KoalaBear> {
    Seq::new(s.len(), |i: int| product(s.take(i + 1)))
}

/// The left-to-right field product of `s`.
pub open spec fn product(s: Seq<KoalaBear>) -> KoalaBear
    decreases s.len(),
{
    if s.len() == 0 {
        fe(1)
    } else {
        product(s.drop_last()).spec_mul(s.last())
    }
}

/// `idx[i]`-th entries of `v`, in the order of `idx`.
pub open spec fn gather<T>(v: Seq<T>, idx: Seq<usize>) -> Seq<T> {
    Seq::new(idx.len(), |i: int| v[idx[i] as int])
}

/// `idx` lists every index below `n` exactly once.
pub open spec fn is_permutation(idx: Seq<usize>, n: nat) -> bool {
    &&& idx.len() == n
    &&& forall|i: int| 0 <= i < idx.len() ==> #[trigger] idx[i] < n
    &&& forall|i: int, j: int| 0 <= i < j < idx.len() ==> idx[i] != idx[j]
}

/// `k` copies of `s`, one after another.
pub open spec fn repeat_seq<T>(s: Seq<T>, k: nat) -> Seq<T> {
    Seq::new(s.len() * k, |i: int| s[i % (s.len() as int)])
}

/// The field reductions of the integers `0, 1, ..., n - 1`.
pub open spec fn identity_vector(n: nat) -> Seq<KoalaBear> {
    Seq::new(n, |i: int| fe(i))
}

/// The reductions of the entries of `idx`.
pub open spec fn index_vector(idx: Seq<usize>) -> Seq<KoalaBear> {
    Seq::new(idx.len(), |i: int| fe(idx[i] as int))
}

/// Every element of `s` is canonical.
pub open spec fn all_wf(s: Seq<KoalaBear>) -> bool {
    forall|i: int| 0 <= i < s.len() ==> (#[trigger] s[i]).wf()
}

/// A sum of zeros is zero.
pub proof fn lemma_sum_all_zero(s: Seq<KoalaBear>)
    requires
        forall|i: int| 0 <= i < s.len() ==> #[trigger] s[i] == fe(0),
    ensures
        sum(s) == fe(0),
    decreases s.len(),
{
    if s.len() > 0 {
        lemma_sum_all_zero(s.drop_last());
        lemma_fe_add(0, 0);
    }
}

/// Replaces `v` by its running sums.
pub fn prefix_sum_in_place(v: &mut Vec<KoalaBear>)
    ensures
        final(v)@ == prefix_sums(old(v)@),
{
    let ghost orig = v@;
    let n = v.len();
    let mut acc = KoalaBear::zero();
    let mut i: usize = 0;
    while i < n
        invariant
            n == v@.len(),
            orig.len() == n,
            i <= n,
            acc == sum(orig.take(i as int)),
            forall|k: int| 0 <= k < i ==> v@[k] == #[trigger] prefix_sums(orig)[k],
            forall|k: int| i <= k < n ==> v@[k] == orig[k],
        decreases n - i,
    {
        proof {
            lemma_sum_take_step(orig, i as int);
        }
        acc = acc.add(v[i]);
        v.set(i, acc);
        i += 1;
    }
    assert(v@ =~= prefix_sums(orig));
}

/// `values[idx[i]]` for each `i`, in order.
pub fn gather_vec<T: Copy>(values: &[T], idx: &[usize]) -> (r: Vec<T>)
    requires
        forall|i: int| 0 <= i < idx@.len() ==> #[trigger] idx@[i] < values@.len(),
    ensures
        r@ == gather(values@, idx@),
{
    let mut out: Vec<T> = Vec::with_capacity(idx.len());
    let mut i: usize = 0;
    while i < idx.len()
        invariant
            i <= idx@.len(),
            forall|j: int| 0 <= j < idx@.len() ==> #[trigger] idx@[j] < values@.len(),
            out@ == gather(values@, idx@).take(i as int),
        decreases idx@.len() - i,
    {
        out.push(values[idx[i]]);
        i += 1;
        assert(out@ =~= gather(values@, idx@).take(i as int));
    }
    assert(out@ =~= gather(values@, idx@));
    out
}

/// `(i, r) -> i * rows + r` is a bijection from `[0, n) x [0, rows)` onto `[0, n * rows)`.
pub proof fn lemma_grid_index(i: int, r: int, rows: int, n: int)
    requires
        0 <= i < n,
        0 <= r < rows,
    ensures
        0 <= i * rows + r < n * rows,
        (i * rows + r) / rows == i,
        (i * rows + r) % rows == r,
{
    assert(0 <= i * rows + r < n * rows) by (nonlinear_arith)
        requires
            0 <= i < n,
            0 <= r < rows,
    ;
    vstd::arithmetic::div_mod::lemma_fundamental_div_mod_converse(i * rows + r, rows, i, r);
}

/// The coordinates of a flat grid index.
pub proof fn lemma_grid_coords(x: int, rows: int, n: int)
    requires
        0 <= x < n * rows,
        rows > 0,
    ensures
        0 <= x / rows < n,
        0 <= x % rows < rows,
        x == (x / rows) * rows + x % rows,
{
    vstd::arithmetic::div_mod::lemma_fundamental_div_mod(x, rows);
    vstd::arithmetic::div_mod::lemma_mod_bound(x, rows);
    vstd::arithmetic::div_mod::lemma_div_pos_is_pos(x, rows);
    assert(x / rows < n) by (nonlinear_arith)
        requires
            x < n * rows,
            rows > 0,
            x == rows * (x / rows) + x % rows,
            x % rows >= 0,
    ;
    vstd::arithmetic::mul::lemma_mul_is_commutative(x / rows, rows);
}

/// Whether `v` contains a permutation of `0..v.len()`.
pub fn check_permutation(v: &[usize]) -> (r: bool)
    ensures
        r == is_permutation(v@, v@.len()),
{
    let n = v.len();
    let mut seen: Vec<bool> = Vec::with_capacity(n);
    let mut k: usize = 0;
    while k < n
        invariant
            k <= n,
            seen@.len() == k,
            forall|j: int| 0 <= j < k ==> !seen@[j],
        decreases n - k,
    {
        seen.push(false);
        k += 1;
    }
    let mut i: usize = 0;
    while i < n
        invariant
            n == v@.len(),
            i <= n,
            seen@.len() == n,
            forall|a: int| 0 <= a < i ==> #[trigger] v@[a] < n,
            forall|a: int, b: int| 0 <= a < b < i ==> v@[a] != v@[b],
            forall|x: int| 0 <= x < n ==> (#[trigger] seen@[x] <==> exists|a: int| 0 <= a < i && v@[a] == x),
        decreases n - i,
    {
        let x = v[i];
        if x >= n {
            return false;
        }
        if seen[x] {
            proof {
                let a = choose|a: int| 0 <= a < i && v@[a] == x;
                assert(v@[a] == v@[i as int]);
            }
            return false;
        }
        seen.set(x, true);
        proof {
            assert forall|y: int| 0 <= y < n implies (#[trigger] seen@[y] <==> exists|a: int| 0 <= a < i + 1 && v@[a] == y) by {
                if y == x {
                    assert(v@[i as int] == y);
                } else if seen@[y] {
                    let a = choose|a: int| 0 <= a < i && v@[a] == y;
                    assert(0 <= a < i + 1 && v@[a] == y);
                }
            }
            assert forall|a: int, b: int| 0 <= a < b < i + 1 implies v@[a] != v@[b] by {
                if b == i && v@[a] == v@[b] {
                    assert(seen@[x as int]);
                }
            }
        }
        i += 1;
    }
    true
}


/// The sum of a sequence is the sum of its first `k` entries plus the sum of the rest.
pub proof fn lemma_sum_split(s: Seq<KoalaBear>, k: int)
    requires
        0 <= k <= s.len(),
    ensures
        sum(s) == sum(s.take(k)).spec_add(sum(s.skip(k))),
{
    assert(s =~= s.take(k) + s.skip(k));
    lemma_isum_append(s.take(k), s.skip(k));
    lemma_sum_fe(s);
    lemma_sum_fe(s.take(k));
    lemma_sum_fe(s.skip(k));
    lemma_fe_add(isum(s.take(k)), isum(s.skip(k)));
}

/// Start of the chunk of length `len` that holds position `k`, in a vector of `n` entries.
pub open spec fn chunk_start(c: int, len: int, n: int) -> int {
    if c * len < n {
        c * len
    } else {
        n
    }
}

/// Adds `offset` to every entry of `values`.
pub fn add_const_in_place(values: &mut Vec<KoalaBear>, start: usize, end: usize, offset: KoalaBear)
    requires
        start <= end <= old(values)@.len(),
    ensures
        final(values)@.len() == old(values)@.len(),
        forall|k: int| start <= k < end ==> #[trigger] final(values)@[k] == old(values)@[k].spec_add(offset),
        forall|k: int|
            0 <= k < old(values)@.len() && !(start <= k < end) ==> #[trigger] final(values)@[k] == old(values)@[k],
{
    let ghost orig = values@;
    let mut i = start;
    while i < end
        invariant
            start <= i <= end <= values@.len(),
            values@.len() == orig.len(),
            forall|k: int| start <= k < i ==> #[trigger] values@[k] == orig[k].spec_add(offset),
            forall|k: int| 0 <= k < orig.len() && !(start <= k < i) ==> #[trigger] values@[k] == orig[k],
        decreases end - i,
    {
        let x = values[i].add(offset);
        values.set(i, x);
        i += 1;
    }
}

/// Replaces `values` by the running sums of `values[i] * weights[i]`, computed
/// chunk by chunk (`chunk_len` entries each): first each chunk's own running
/// sums and total, then each chunk is shifted by the totals of the chunks before it.
pub fn weighted_prefix_sum_chunked(values: &mut Vec<KoalaBear>, weights: &[KoalaBear], chunk_len: usize)
    requires
        old(values)@.len() <= weights@.len(),
        old(values)@.len() == 0 || chunk_len > 0,
    ensures
        final(values)@ == prefix_sums(hadamard(old(values)@, weights@)),
{
    let ghost orig = values@;
    let ghost h = hadamard(orig, weights@);
    let n = values.len();
    if n == 0 {
        assert(values@ =~= prefix_sums(h));
        return;
    }
    let ghost l = chunk_len as int;
    // Running sums inside each chunk, and each chunk's total.
    let mut totals: Vec<KoalaBear> = Vec::new();
    let mut start: usize = 0;
    while start < n
        invariant
            n == values@.len(),
            orig.len() == n,
            n <= weights@.len(),
            h == hadamard(orig, weights@),
            l == chunk_len,
            chunk_len > 0,
            start == chunk_start(totals@.len() as int, l, n as int),
            totals@.len() == 0 || (totals@.len() - 1) * l < n,
            forall|c: int| 0 <= c < totals@.len() ==> #[trigger] totals@[c] == sum(
                h.subrange(c * l, chunk_start(c + 1, l, n as int)),
            ),
            forall|k: int| 0 <= k < start ==> #[trigger] values@[k] == sum(h.subrange((k / l) * l, k + 1)),
            forall|k: int| start <= k < n ==> #[trigger] values@[k] == orig[k],
        decreases n - start,
    {
        let ghost c = totals@.len() as int;
        assert(start == c * l);
        let end = if n - start > chunk_len {
            start + chunk_len
        } else {
            n
        };
        assert(end == chunk_start(c + 1, l, n as int)) by (nonlinear_arith)
            requires
                start == c * l,
                end == (if n - start > chunk_len { start + chunk_len } else { n as int }),
                l == chunk_len,
        ;
        let mut acc = KoalaBear::zero();
        let mut j = start;
        while j < end
            invariant
                n == values@.len(),
                orig.len() == n,
                n <= weights@.len(),
                h == hadamard(orig, weights@),
                l == chunk_len,
                chunk_len > 0,
                start == c * l,
                c >= 0,
                start <= j <= end <= n,
                end <= start + chunk_len,
                acc == sum(h.subrange(start as int, j as int)),
                forall|k: int| 0 <= k < start ==> #[trigger] values@[k] == sum(h.subrange((k / l) * l, k + 1)),
                forall|k: int| start <= k < j ==> #[trigger] values@[k] == sum(h.subrange(start as int, k + 1)),
                forall|k: int| j <= k < n ==> #[trigger] values@[k] == orig[k],
            decreases end - j,
        {
            proof {
                let sub = h.subrange(start as int, end as int);
                lemma_sum_take_step(sub, j - start);
                assert(sub.take(j - start + 1) =~= h.subrange(start as int, j + 1));
                assert(sub.take(j - start) =~= h.subrange(start as int, j as int));
            }
            acc = acc.add(values[j].mul(weights[j]));
            values.set(j, acc);
            j += 1;
        }
        proof {
            assert forall|k: int| 0 <= k < end implies #[trigger] values@[k] == sum(h.subrange((k / l) * l, k + 1)) by {
                if k >= start {
                    lemma_grid_index(c, k - start, l, c + 1);
                }
            }
        }
        totals.push(acc);
        start = end;
    }
    // Shift each chunk by the sum of everything before it.
    let mut running = KoalaBear::zero();
    let mut c: usize = 0;
    let mut begin: usize = 0;
    while c < totals.len()
        invariant
            n == values@.len(),
            orig.len() == n,
            h.len() == n,
            l == chunk_len,
            chunk_len > 0,
            c <= totals@.len(),
            begin == chunk_start(c as int, l, n as int),
            totals@.len() * l >= n,
            forall|d: int| 0 <= d < totals@.len() ==> #[trigger] totals@[d] == sum(
                h.subrange(d * l, chunk_start(d + 1, l, n as int)),
            ),
            (totals@.len() - 1) * l < n,
            running == sum(h.take(begin as int)),
            forall|k: int| 0 <= k < begin ==> #[trigger] values@[k] == sum(h.take(k + 1)),
            forall|k: int| begin <= k < n ==> #[trigger] values@[k] == sum(h.subrange((k / l) * l, k + 1)),
        decreases totals@.len() - c,
    {
        let end = if n - begin > chunk_len {
            begin + chunk_len
        } else {
            n
        };
        proof {
            assert(c * l <= (totals@.len() - 1) * l) by (nonlinear_arith)
                requires
                    c < totals@.len(),
                    l > 0,
            ;
            assert(begin == c * l);
            assert(end == chunk_start(c + 1, l, n as int)) by (nonlinear_arith)
                requires
                    begin == c * l,
                    end == (if n - begin > chunk_len { begin + chunk_len } else { n as int }),
                    l == chunk_len,
            ;
        }
        let offset = running;
        let ghost before = values@;
        if !offset.is_zero() {
            add_const_in_place(values, begin, end, offset);
        }
        proof {
            assert forall|k: int| begin <= k < end implies #[trigger] values@[k] == sum(h.take(k + 1)) by {
                lemma_grid_index(c as int, k - begin, l, c + 1);
                let t = h.take(k + 1);
                lemma_sum_split(t, begin as int);
                assert(t.take(begin as int) =~= h.take(begin as int));
                assert(t.skip(begin as int) =~= h.subrange(begin as int, k + 1));
                lemma_add_comm(offset, before[k]);
                if offset.val == 0 {
                    let local = h.subrange(begin as int, k + 1);
                    lemma_sum_fe(local);
                    lemma_fe_v(isum(local));
                    lemma_fe_canonical(before[k]);
                }
            }
            let t = h.take(end as int);
            lemma_sum_split(t, begin as int);
            assert(t.take(begin as int) =~= h.take(begin as int));
            assert(t.skip(begin as int) =~= h.subrange(begin as int, end as int));
        }
        running = running.add(totals[c]);
        c += 1;
        begin = end;
    }
    proof {
        assert(begin == n);
    }
    assert(values@ =~= prefix_sums(h));
}

} // verus!
