//! BLAKE3 Merkle trees over field elements given by their little-endian
//! 64-bit limbs, with openings of interleaved columns and their verification.
use vstd::prelude::*;

use crate::codeswitching::sumcheck::{is_pow2, lemma_pow2_half, log2};

verus! {

/// The BLAKE3 digest of a byte string.
pub uninterp spec fn blake3_digest(data: Seq<u8>) -> Seq<u8>;

/// Calls `blake3::hash` on `data` and returns the 32 bytes of the digest,
/// which is a function of `data` alone.
#[verifier::external_body]
fn blake3_hash(data: &[u8]) -> (r: [u8; 32])
    ensures
        r@ == blake3_digest(data@),
{
    *blake3::hash(data).as_bytes()
}

/// The digests held by a list of 32-byte arrays.
pub open spec fn dview(v: Seq<[u8; 32]>) -> Seq<Seq<u8>> {
    Seq::new(v.len(), |i: int| v[i]@)
}

/// Pushing a digest pushes its bytes.
proof fn lemma_dview_push(v: Seq<[u8; 32]>, x: [u8; 32])
    ensures
        dview(v.push(x)) == dview(v).push(x@),
        dview(v).len() == v.len(),
{
    assert(dview(v.push(x)) =~= dview(v).push(x@));
}

/// An inner node: the digest of the left child's bytes followed by the right child's.
pub open spec fn node(left: Seq<u8>, right: Seq<u8>) -> Seq<u8> {
    blake3_digest(left + right)
}

/// The level above `l`: the node of each pair.
pub open spec fn level_up(l: Seq<Seq<u8>>) -> Seq<Seq<u8>> {
    Seq::new(l.len() / 2, |i: int| node(l[2 * i], l[2 * i + 1]))
}

/// Level `k` above the leaves `l`.
pub open spec fn level(l: Seq<Seq<u8>>, k: nat) -> Seq<Seq<u8>>
    decreases k,
{
    if k == 0 {
        l
    } else {
        level_up(level(l, (k - 1) as nat))
    }
}

/// The root of the tree over `l`: the single node of its top level.
pub open spec fn merkle_root(l: Seq<Seq<u8>>) -> Seq<u8>
    decreases l.len(),
{
    if l.len() <= 1 {
        l[0]
    } else {
        merkle_root(level_up(l))
    }
}

/// The little-endian bytes of a 64-bit limb.
pub open spec fn le_bytes(x: u64) -> Seq<u8> {
    Seq::new(8, |i: int| ((x >> ((8 * i) as u64)) & 0xff) as u8)
}

/// The bytes of a field element given by its limbs.
pub open spec fn limbs_bytes(limbs: Seq<u64>) -> Seq<u8>
    decreases limbs.len(),
{
    if limbs.len() == 0 {
        Seq::empty()
    } else {
        limbs_bytes(limbs.drop_last()) + le_bytes(limbs.last())
    }
}

/// The bytes of a list of field elements, one after another.
pub open spec fn elements_bytes(elems: Seq<Seq<u64>>) -> Seq<u8>
    decreases elems.len(),
{
    if elems.len() == 0 {
        Seq::empty()
    } else {
        elements_bytes(elems.drop_last()) + limbs_bytes(elems.last())
    }
}

/// The leaf of a list of field elements: the digest of their bytes.
pub open spec fn leaf(elems: Seq<Seq<u64>>) -> Seq<u8> {
    blake3_digest(elements_bytes(elems))
}

/// The limbs of every element of `v`.
pub open spec fn limb_views(v: Seq<Vec<u64>>) -> Seq<Seq<u64>> {
    Seq::new(v.len(), |i: int| v[i]@)
}

/// Column `col` of the rows `segments`.
pub open spec fn column(segments: Seq<Vec<Vec<u64>>>, col: int) -> Seq<Seq<u64>> {
    Seq::new(segments.len(), |s: int| segments[s]@[col]@)
}

/// The all-zero digest.
pub open spec fn zero_digest() -> Seq<u8> {
    Seq::new(32, |i: int| 0u8)
}

/// `l` padded with zero digests to `n` entries.
pub open spec fn pad(l: Seq<Seq<u8>>, n: nat) -> Seq<Seq<u8>> {
    Seq::new(n, |i: int| if i < l.len() { l[i] } else { zero_digest() })
}

/// The smallest power of two that is at least `n` and at least 2.
pub open spec fn padded_len(n: nat) -> nat
    decreases n,
{
    if n <= 2 {
        2
    } else {
        2 * padded_len(((n + 1) / 2) as nat)
    }
}

/// The position of the sibling of position `i`.
pub open spec fn sibling(i: int) -> int {
    if i % 2 == 0 {
        i + 1
    } else {
        i - 1
    }
}

/// The authentication path of leaf `q`: its sibling, then its parent's sibling, and so on.
pub open spec fn open_path(l: Seq<Seq<u8>>, q: int) -> Seq<Seq<u8>>
    decreases l.len(),
{
    if l.len() <= 1 {
        Seq::empty()
    } else {
        seq![l[sibling(q)]] + open_path(level_up(l), q / 2)
    }
}

/// The root recomputed from a leaf value at position `idx` and a path.
pub open spec fn fold_path(acc: Seq<u8>, idx: int, path: Seq<Seq<u8>>) -> Seq<u8>
    decreases path.len(),
{
    if path.len() == 0 {
        acc
    } else {
        fold_path(
            if idx % 2 == 0 {
                node(acc, path[0])
            } else {
                node(path[0], acc)
            },
            idx / 2,
            path.drop_first(),
        )
    }
}

/// Appends the bytes of `x` to `out`.
fn push_digest(out: &mut Vec<u8>, x: &[u8; 32])
    ensures
        final(out)@ == old(out)@ + x@,
{
    let ghost start = out@;
    let mut i: usize = 0;
    while i < 32
        invariant
            x@.len() == 32,
            i <= 32,
            out@ == start + x@.take(i as int),
        decreases 32 - i,
    {
        out.push(x[i]);
        i += 1;
        assert(out@ =~= start + x@.take(i as int));
    }
    assert(x@.take(32) =~= x@);
}

/// The node over two children.
pub fn hash_merkle_node(left: &[u8; 32], right: &[u8; 32]) -> (r: [u8; 32])
    ensures
        r@ == node(left@, right@),
{
    let mut buf: Vec<u8> = Vec::with_capacity(64);
    push_digest(&mut buf, left);
    push_digest(&mut buf, right);
    assert(buf@ =~= left@ + right@);
    blake3_hash(buf.as_slice())
}

/// The level above `cur`.
fn next_level(cur: &Vec<[u8; 32]>) -> (r: Vec<[u8; 32]>)
    requires
        cur@.len() % 2 == 0,
    ensures
        dview(r@) == level_up(dview(cur@)),
        r@.len() == cur@.len() / 2,
{
    let n = cur.len();
    let half = n / 2;
    let mut out: Vec<[u8; 32]> = Vec::with_capacity(half);
    let mut i: usize = 0;
    while i < half
        invariant
            half == cur@.len() / 2,
            n == cur@.len(),
            cur@.len() % 2 == 0,
            i <= half,
            out@.len() == i,
            dview(out@) == level_up(dview(cur@)).take(i as int),
        decreases half - i,
    {
        let h = hash_merkle_node(&cur[2 * i], &cur[2 * i + 1]);
        proof {
            lemma_dview_push(out@, h);
        }
        out.push(h);
        i += 1;
        assert(dview(out@) =~= level_up(dview(cur@)).take(i as int));
    }
    assert(dview(out@) =~= level_up(dview(cur@)));
    out
}

/// A copy of a list of digests.
fn copy_digests(v: &[[u8; 32]]) -> (r: Vec<[u8; 32]>)
    ensures
        r@ == v@,
{
    let mut out: Vec<[u8; 32]> = Vec::with_capacity(v.len());
    let mut i: usize = 0;
    while i < v.len()
        invariant
            i <= v@.len(),
            out@ == v@.take(i as int),
        decreases v@.len() - i,
    {
        out.push(v[i]);
        i += 1;
        assert(out@ =~= v@.take(i as int));
    }
    assert(out@ =~= v@);
    out
}

/// The root of the tree over `leaves`, level by level.
fn merkle_root_sequential(leaves: &[[u8; 32]]) -> (r: [u8; 32])
    requires
        is_pow2(leaves@.len()),
        leaves@.len() >= 2,
    ensures
        r@ == merkle_root(dview(leaves@)),
{
    proof {
        lemma_pow2_half(leaves@.len());
    }
    let first = copy_digests(leaves);
    let mut level = next_level(&first);
    while level.len() > 1
        invariant
            is_pow2(level@.len()),
            merkle_root(dview(level@)) == merkle_root(dview(leaves@)),
        decreases level@.len(),
    {
        proof {
            lemma_pow2_half(level@.len());
        }
        level = next_level(&level);
    }
    proof {
        if level@.len() == 0 {
            assert(!is_pow2(0));
        }
    }
    level[0]
}

/// The leaves of a tree whose two halves are powers of two split into the
/// leaves of the two halves one level up.
proof fn lemma_level_up_split(l: Seq<Seq<u8>>)
    requires
        l.len() % 4 == 0,
    ensures
        level_up(l) == level_up(l.take((l.len() / 2) as int)) + level_up(l.skip((l.len() / 2) as int)),
{
    assert(level_up(l) =~= level_up(l.take((l.len() / 2) as int)) + level_up(l.skip((l.len() / 2) as int)));
}

/// The root of a tree is the node over the roots of its two halves.
pub proof fn lemma_root_halves(l: Seq<Seq<u8>>)
    requires
        is_pow2(l.len()),
        l.len() >= 2,
    ensures
        merkle_root(l) == node(merkle_root(l.take((l.len() / 2) as int)), merkle_root(l.skip((l.len() / 2) as int))),
    decreases l.len(),
{
    lemma_pow2_half(l.len());
    let u = level_up(l);
    assert(merkle_root(l) == merkle_root(u));
    if l.len() == 2 {
        assert(u.len() == 1);
        assert(merkle_root(u) == u[0]);
        assert(merkle_root(l.take(1)) == l[0]);
        assert(merkle_root(l.skip(1)) == l[1]);
    } else {
        lemma_pow2_half(l.len() / 2);
        lemma_level_up_split(l);
        lemma_root_halves(u);
        let lt = l.take((l.len() / 2) as int);
        let ls = l.skip((l.len() / 2) as int);
        assert(u.take((u.len() / 2) as int) =~= level_up(lt));
        assert(u.skip((u.len() / 2) as int) =~= level_up(ls));
        assert(merkle_root(lt) == merkle_root(level_up(lt)));
        assert(merkle_root(ls) == merkle_root(level_up(ls)));
    }
}

/// The root of the tree over `leaves`, computed by splitting into halves down
/// to 1024 leaves and level by level below that.
pub fn blake3_merkle_root(leaves: &[[u8; 32]]) -> (r: [u8; 32])
    requires
        is_pow2(leaves@.len()),
        leaves@.len() >= 2,
    ensures
        r@ == merkle_root(dview(leaves@)),
    decreases leaves@.len(),
{
    let n = leaves.len();
    if n <= 1024 {
        return merkle_root_sequential(leaves);
    }
    let mid = n / 2;
    proof {
        lemma_pow2_half(n as nat);
        lemma_root_halves(dview(leaves@));
        assert(dview(leaves@).take(mid as int) =~= dview(leaves@.subrange(0, mid as int)));
        assert(dview(leaves@).skip(mid as int) =~= dview(leaves@.subrange(mid as int, n as int)));
    }
    let left = blake3_merkle_root(slice_range(leaves, 0, mid).as_slice());
    let right = blake3_merkle_root(slice_range(leaves, mid, n).as_slice());
    hash_merkle_node(&left, &right)
}

/// `v[start..end]` as a vector.
fn slice_range(v: &[[u8; 32]], start: usize, end: usize) -> (r: Vec<[u8; 32]>)
    requires
        start <= end <= v@.len(),
    ensures
        r@ == v@.subrange(start as int, end as int),
{
    let mut out: Vec<[u8; 32]> = Vec::with_capacity(end - start);
    let mut i = start;
    while i < end
        invariant
            start <= i <= end <= v@.len(),
            out@ == v@.subrange(start as int, i as int),
        decreases end - i,
    {
        out.push(v[i]);
        i += 1;
        assert(out@ =~= v@.subrange(start as int, i as int));
    }
    out
}

/// Appends the little-endian bytes of `x` to `out`.
fn push_le_bytes(out: &mut Vec<u8>, x: u64)
    ensures
        final(out)@ == old(out)@ + le_bytes(x),
{
    let ghost start = out@;
    let mut i: u64 = 0;
    while i < 8
        invariant
            i <= 8,
            out@ == start + le_bytes(x).take(i as int),
        decreases 8 - i,
    {
        let b = ((x >> (8 * i)) & 0xff) as u8;
        out.push(b);
        i += 1;
        assert(out@ =~= start + le_bytes(x).take(i as int));
    }
    assert(le_bytes(x).take(8) =~= le_bytes(x));
}

/// Appends the bytes of a field element given by its limbs.
fn push_element(out: &mut Vec<u8>, limbs: &Vec<u64>)
    ensures
        final(out)@ == old(out)@ + limbs_bytes(limbs@),
{
    let ghost start = out@;
    let mut i: usize = 0;
    while i < limbs.len()
        invariant
            i <= limbs@.len(),
            out@ == start + limbs_bytes(limbs@.take(i as int)),
        decreases limbs@.len() - i,
    {
        proof {
            assert(limbs@.take(i + 1).drop_last() =~= limbs@.take(i as int));
        }
        push_le_bytes(out, limbs[i]);
        i += 1;
        assert(out@ =~= start + limbs_bytes(limbs@.take(i as int)));
    }
    assert(limbs@.take(i as int) =~= limbs@);
}

/// The leaf of the column `col` of `segments`: the digest of the bytes of
/// `segments[0][col]`, `segments[1][col]`, and so on.
fn hash_interleaved_column(segments: &[Vec<Vec<u64>>], col: usize) -> (r: [u8; 32])
    requires
        forall|s: int| 0 <= s < segments@.len() ==> col < (#[trigger] segments@[s])@.len(),
    ensures
        r@ == leaf(column(segments@, col as int)),
{
    let mut buf: Vec<u8> = Vec::new();
    let mut s: usize = 0;
    while s < segments.len()
        invariant
            s <= segments@.len(),
            forall|s: int| 0 <= s < segments@.len() ==> col < (#[trigger] segments@[s])@.len(),
            buf@ == elements_bytes(column(segments@, col as int).take(s as int)),
        decreases segments@.len() - s,
    {
        proof {
            assert(column(segments@, col as int).take(s + 1).drop_last() =~= column(segments@, col as int).take(
                s as int,
            ));
        }
        push_element(&mut buf, &segments[s][col]);
        s += 1;
    }
    assert(column(segments@, col as int).take(s as int) =~= column(segments@, col as int));
    blake3_hash(buf.as_slice())
}

/// The leaf of a list of field elements.
fn hash_column_values(column_values: &[Vec<u64>]) -> (r: [u8; 32])
    ensures
        r@ == leaf(limb_views(column_values@)),
{
    let mut buf: Vec<u8> = Vec::new();
    let mut s: usize = 0;
    while s < column_values.len()
        invariant
            s <= column_values@.len(),
            buf@ == elements_bytes(limb_views(column_values@).take(s as int)),
        decreases column_values@.len() - s,
    {
        proof {
            assert(limb_views(column_values@).take(s + 1).drop_last() =~= limb_views(column_values@).take(s as int));
        }
        push_element(&mut buf, &column_values[s]);
        s += 1;
    }
    assert(limb_views(column_values@).take(s as int) =~= limb_views(column_values@));
    blake3_hash(buf.as_slice())
}

/// The number of leaves after padding `n` leaves.
fn padded_count(n: usize) -> (r: usize)
    requires
        n <= usize::MAX / 2,
    ensures
        r == padded_len(n as nat),
    decreases n,
{
    if n <= 2 {
        2
    } else {
        proof {
            lemma_padded_len(((n + 1) / 2) as nat);
        }
        2 * padded_count((n + 1) / 2)
    }
}

/// Pads `leaves` with zero digests to `n` entries.
fn pad_leaves(leaves: &mut Vec<[u8; 32]>, n: usize)
    requires
        old(leaves)@.len() <= n,
    ensures
        dview(final(leaves)@) == pad(dview(old(leaves)@), n as nat),
        final(leaves)@.len() == n,
{
    let ghost start = dview(leaves@);
    let zero: [u8; 32] = [0u8; 32];
    assert(zero@ =~= zero_digest());
    while leaves.len() < n
        invariant
            start.len() <= leaves@.len() <= n,
            zero@ == zero_digest(),
            dview(leaves@) == pad(start, leaves@.len()),
        decreases n - leaves@.len(),
    {
        proof {
            lemma_dview_push(leaves@, zero);
        }
        leaves.push(zero);
        assert(dview(leaves@) =~= pad(start, leaves@.len()));
    }
}

/// `padded_len` is a power of two, at least 2 and at least `n`.
pub proof fn lemma_padded_len(n: nat)
    ensures
        is_pow2(padded_len(n)),
        padded_len(n) >= 2,
        padded_len(n) >= n,
        n >= 2 ==> padded_len(n) <= 2 * n - 2,
    decreases n,
{
    if n > 2 {
        let m = ((n + 1) / 2) as nat;
        lemma_padded_len(m);
        let x = padded_len(m);
        assert(is_pow2(2 * x)) by {
            assert((2 * x) / 2 == x);
        }
    } else {
        assert(is_pow2(1));
        assert(is_pow2(2));
    }
}

/// The leaves of an interleaved codeword: one digest per column, over the
/// elements of that column in every row, padded with zero digests to a power
/// of two (at least two).
pub fn blake3_merkle_interleaved_leaves(segments: &[Vec<Vec<u64>>]) -> (r: Vec<[u8; 32]>)
    requires
        segments@.len() > 0,
        forall|s: int| 0 <= s < segments@.len() ==> (#[trigger] segments@[s])@.len() == segments@[0]@.len(),
        segments@[0]@.len() <= usize::MAX / 2,
    ensures
        dview(r@) == pad(
            Seq::new(segments@[0]@.len(), |c: int| leaf(column(segments@, c))),
            padded_len(segments@[0]@.len()),
        ),
        is_pow2(r@.len()),
        r@.len() >= 2,
{
    let block_len = segments[0].len();
    let mut leaves: Vec<[u8; 32]> = Vec::with_capacity(block_len);
    let ghost cols = Seq::new(block_len as nat, |c: int| leaf(column(segments@, c)));
    let mut c: usize = 0;
    while c < block_len
        invariant
            block_len == segments@[0]@.len(),
            segments@.len() > 0,
            forall|s: int| 0 <= s < segments@.len() ==> (#[trigger] segments@[s])@.len() == block_len,
            cols == Seq::new(block_len as nat, |c: int| leaf(column(segments@, c))),
            c <= block_len,
            dview(leaves@) == cols.take(c as int),
        decreases block_len - c,
    {
        let h = hash_interleaved_column(segments, c);
        proof {
            lemma_dview_push(leaves@, h);
        }
        leaves.push(h);
        c += 1;
        assert(dview(leaves@) =~= cols.take(c as int));
    }
    assert(cols.take(c as int) =~= cols);
    let n = padded_count(block_len);
    proof {
        lemma_padded_len(block_len as nat);
    }
    pad_leaves(&mut leaves, n);
    leaves
}

/// Every level of the tree over `leaves`, from the leaves up to the root.
pub fn blake3_merkle_precompute_levels(leaves: &[[u8; 32]]) -> (r: Vec<Vec<[u8; 32]>>)
    requires
        is_pow2(leaves@.len()),
        leaves@.len() >= 2,
    ensures
        r@.len() == log2(leaves@.len()) + 1,
        forall|j: int| 0 <= j < r@.len() ==> dview((#[trigger] r@[j])@) == level(dview(leaves@), j as nat),
        r@[r@.len() - 1]@.len() == 1,
{
    let ghost l = dview(leaves@);
    let first = copy_digests(leaves);
    let mut levels: Vec<Vec<[u8; 32]>> = Vec::new();
    levels.push(first);
    let mut cur = copy_digests(leaves);
    proof {
        assert(dview(levels@[0]@) == level(l, 0));
    }
    while cur.len() > 1
        invariant
            l == dview(leaves@),
            levels@.len() >= 1,
            is_pow2(cur@.len()),
            dview(cur@) == level(l, (levels@.len() - 1) as nat),
            log2(cur@.len()) + levels@.len() - 1 == log2(leaves@.len()),
            forall|j: int| 0 <= j < levels@.len() ==> dview((#[trigger] levels@[j])@) == level(l, j as nat),
            levels@[levels@.len() - 1]@ == cur@,
        decreases cur@.len(),
    {
        proof {
            lemma_pow2_half(cur@.len());
        }
        let next = next_level(&cur);
        let copy = copy_digests(next.as_slice());
        levels.push(copy);
        cur = next;
    }
    proof {
        if cur@.len() == 0 {
            assert(!is_pow2(0));
        }
    }
    levels
}

/// The root of a tree given by its levels: the single node of the last level.
pub fn blake3_merkle_root_from_levels(levels: &[Vec<[u8; 32]>]) -> (r: [u8; 32])
    requires
        levels@.len() > 0,
        levels@[levels@.len() - 1]@.len() == 1,
    ensures
        r == levels@[levels@.len() - 1]@[0],
{
    let last = &levels[levels.len() - 1];
    last[0]
}

/// The root over the digests of the elements of `codeword` (each given by its
/// limbs), padded with zero digests to a power of two (at least two).
pub fn blake3_merkle_commit(codeword: &[Vec<u64>]) -> (r: [u8; 32])
    requires
        codeword@.len() <= usize::MAX / 2,
    ensures
        r@ == merkle_root(
            pad(
                Seq::new(codeword@.len(), |i: int| leaf(seq![codeword@[i]@])),
                padded_len(codeword@.len()),
            ),
        ),
{
    let ghost want = Seq::new(codeword@.len(), |i: int| leaf(seq![codeword@[i]@]));
    let mut leaves: Vec<[u8; 32]> = Vec::with_capacity(codeword.len());
    let mut i: usize = 0;
    while i < codeword.len()
        invariant
            i <= codeword@.len(),
            want == Seq::new(codeword@.len(), |i: int| leaf(seq![codeword@[i]@])),
            dview(leaves@) == want.take(i as int),
        decreases codeword@.len() - i,
    {
        let one = slice_elements(codeword, i);
        let h = hash_column_values(one.as_slice());
        proof {
            assert(limb_views(one@) =~= seq![codeword@[i as int]@]);
            lemma_dview_push(leaves@, h);
        }
        leaves.push(h);
        i += 1;
        assert(dview(leaves@) =~= want.take(i as int));
    }
    assert(want.take(i as int) =~= want);
    let n = padded_count(codeword.len());
    proof {
        lemma_padded_len(codeword@.len());
    }
    pad_leaves(&mut leaves, n);
    blake3_merkle_root(leaves.as_slice())
}

/// The one-element list holding a copy of element `i` of `v`.
fn slice_elements(v: &[Vec<u64>], i: usize) -> (r: Vec<Vec<u64>>)
    requires
        i < v@.len(),
    ensures
        limb_views(r@) == seq![v@[i as int]@],
{
    let e = &v[i];
    let mut copy: Vec<u64> = Vec::with_capacity(e.len());
    let mut k: usize = 0;
    while k < e.len()
        invariant
            k <= e@.len(),
            copy@ == e@.take(k as int),
        decreases e@.len() - k,
    {
        copy.push(e[k]);
        k += 1;
        assert(copy@ =~= e@.take(k as int));
    }
    assert(copy@ =~= e@);
    let mut out: Vec<Vec<u64>> = Vec::new();
    out.push(copy);
    assert(limb_views(out@) =~= seq![v@[i as int]@]);
    out
}

/// The root of the tree over the leaves of an interleaved codeword.
pub fn blake3_merkle_commit_interleaved(segments: &[Vec<Vec<u64>>]) -> (r: [u8; 32])
    requires
        segments@.len() > 0,
        forall|s: int| 0 <= s < segments@.len() ==> (#[trigger] segments@[s])@.len() == segments@[0]@.len(),
        segments@[0]@.len() <= usize::MAX / 2,
    ensures
        r@ == merkle_root(
            pad(
                Seq::new(segments@[0]@.len(), |c: int| leaf(column(segments@, c))),
                padded_len(segments@[0]@.len()),
            ),
        ),
{
    let leaves = blake3_merkle_interleaved_leaves(segments);
    blake3_merkle_root(leaves.as_slice())
}

/// The authentication path of each queried leaf, in query order: at each
/// level, the sibling of the current position, which then halves.
pub fn blake3_merkle_open_interleaved(
    leaves: &[[u8; 32]],
    merkle_levels: &[Vec<[u8; 32]>],
    query_indices: &[usize],
) -> (r: Vec<Vec<[u8; 32]>>)
    requires
        is_pow2(leaves@.len()),
        leaves@.len() >= 2,
        merkle_levels@.len() == log2(leaves@.len()) + 1,
        forall|j: int|
            0 <= j < merkle_levels@.len() ==> dview((#[trigger] merkle_levels@[j])@) == level(
                dview(leaves@),
                j as nat,
            ),
        forall|i: int| 0 <= i < query_indices@.len() ==> #[trigger] query_indices@[i] < leaves@.len(),
    ensures
        r@.len() == query_indices@.len(),
        forall|i: int|
            0 <= i < r@.len() ==> dview((#[trigger] r@[i])@) == open_path(dview(leaves@), query_indices@[i] as int),
{
    let path_len = merkle_levels.len() - 1;
    let mut out: Vec<Vec<[u8; 32]>> = Vec::with_capacity(query_indices.len());
    let mut qi: usize = 0;
    while qi < query_indices.len()
        invariant
            is_pow2(leaves@.len()),
            leaves@.len() >= 2,
            merkle_levels@.len() == log2(leaves@.len()) + 1,
            path_len == log2(leaves@.len()),
            forall|j: int|
                0 <= j < merkle_levels@.len() ==> dview((#[trigger] merkle_levels@[j])@) == level(
                    dview(leaves@),
                    j as nat,
                ),
            forall|i: int| 0 <= i < query_indices@.len() ==> #[trigger] query_indices@[i] < leaves@.len(),
            qi <= query_indices@.len(),
            out@.len() == qi,
            forall|i: int|
                0 <= i < qi ==> dview((#[trigger] out@[i])@) == open_path(dview(leaves@), query_indices@[i] as int),
        decreases query_indices@.len() - qi,
    {
        let idx = query_indices[qi];
        let mut cur_idx = idx;
        let mut path: Vec<[u8; 32]> = Vec::with_capacity(path_len);
        let mut j: usize = 0;
        while j < path_len
            invariant
                is_pow2(leaves@.len()),
                leaves@.len() >= 2,
                merkle_levels@.len() == log2(leaves@.len()) + 1,
                path_len == log2(leaves@.len()),
                forall|j: int|
                    0 <= j < merkle_levels@.len() ==> dview((#[trigger] merkle_levels@[j])@) == level(
                        dview(leaves@),
                        j as nat,
                    ),
                j <= path_len,
                is_pow2(level(dview(leaves@), j as nat).len()),
                log2(level(dview(leaves@), j as nat).len()) + j == path_len,
                cur_idx < level(dview(leaves@), j as nat).len(),
                dview(path@) + open_path(level(dview(leaves@), j as nat), cur_idx as int) == open_path(
                    dview(leaves@),
                    idx as int,
                ),
            decreases path_len - j,
        {
            let ghost lv = level(dview(leaves@), j as nat);
            proof {
                lemma_pow2_half(lv.len());
            }
            let sib = if cur_idx % 2 == 0 {
                cur_idx + 1
            } else {
                cur_idx - 1
            };
            let level_j = &merkle_levels[j];
            let d = level_j[sib];
            path.push(d);
            proof {
                assert(dview(merkle_levels@[j as int]@) == lv);
                assert(d@ == lv[sib as int]);
                assert(dview(path@) =~= dview(path@.drop_last()).push(d@));
                assert(level(dview(leaves@), (j + 1) as nat) == level_up(lv));
                assert(open_path(lv, cur_idx as int) == seq![lv[sibling(cur_idx as int)]] + open_path(
                    level_up(lv),
                    cur_idx as int / 2,
                ));
                assert(dview(path@) + open_path(level_up(lv), cur_idx as int / 2) =~= dview(path@.drop_last())
                    + open_path(lv, cur_idx as int));
            }
            cur_idx = cur_idx / 2;
            j += 1;
        }
        proof {
            let lv = level(dview(leaves@), j as nat);
            assert(log2(lv.len()) == 0);
            assert(lv.len() == 1);
            assert(dview(path@) + open_path(lv, cur_idx as int) =~= dview(path@));
        }
        out.push(path);
        qi += 1;
    }
    out
}

/// Whether two digests are equal.
fn digest_eq(a: &[u8; 32], b: &[u8; 32]) -> (r: bool)
    ensures
        r == (a@ == b@),
{
    let mut i: usize = 0;
    while i < 32
        invariant
            a@.len() == 32,
            b@.len() == 32,
            i <= 32,
            a@.take(i as int) == b@.take(i as int),
        decreases 32 - i,
    {
        if a[i] != b[i] {
            assert(a@[i as int] != b@[i as int]);
            return false;
        }
        i += 1;
        assert(a@.take(i as int) =~= b@.take(i as int));
    }
    assert(a@ =~= a@.take(32));
    assert(b@ =~= b@.take(32));
    true
}

/// Whether an opened column, with its authentication path, leads to `root`.
pub fn blake3_merkle_verify_interleaved_column(
    column_values: &[Vec<u64>],
    query_index: usize,
    path: &[[u8; 32]],
    root: &[u8; 32],
) -> (r: bool)
    ensures
        r == (fold_path(leaf(limb_views(column_values@)), query_index as int, dview(path@)) == root@),
{
    let mut acc = hash_column_values(column_values);
    let mut idx = query_index;
    let mut i: usize = 0;
    assert(dview(path@).skip(0) =~= dview(path@));
    while i < path.len()
        invariant
            i <= path@.len(),
            fold_path(acc@, idx as int, dview(path@).skip(i as int)) == fold_path(
                leaf(limb_views(column_values@)),
                query_index as int,
                dview(path@),
            ),
        decreases path@.len() - i,
    {
        proof {
            assert(dview(path@).skip(i as int).drop_first() =~= dview(path@).skip(i + 1));
        }
        acc = if idx % 2 == 0 {
            hash_merkle_node(&acc, &path[i])
        } else {
            hash_merkle_node(&path[i], &acc)
        };
        idx = idx / 2;
        i += 1;
    }
    proof {
        assert(dview(path@).skip(i as int) =~= Seq::<Seq<u8>>::empty());
    }
    digest_eq(&acc, root)
}

/// An opened leaf with its authentication path leads back to the root: the
/// path of leaf `q`, folded from the leaf's value, gives the tree's root.
pub proof fn lemma_open_verify(l: Seq<Seq<u8>>, q: int)
    requires
        is_pow2(l.len()),
        0 <= q < l.len(),
    ensures
        fold_path(l[q], q, open_path(l, q)) == merkle_root(l),
    decreases l.len(),
{
    if l.len() > 1 {
        lemma_pow2_half(l.len());
        let u = level_up(l);
        lemma_open_verify(u, q / 2);
        let p = open_path(l, q);
        assert(p.drop_first() =~= open_path(u, q / 2));
        if q % 2 == 0 {
            assert(node(l[q], l[sibling(q)]) == u[q / 2]);
        } else {
            assert(node(l[sibling(q)], l[q]) == u[q / 2]);
        }
    }
}

/// Levels are obtained one from the next.
pub proof fn lemma_level_root(l: Seq<Seq<u8>>, k: nat)
    requires
        is_pow2(l.len()),
        k <= log2(l.len()),
    ensures
        is_pow2(level(l, k).len()),
        log2(level(l, k).len()) + k == log2(l.len()),
        merkle_root(level(l, k)) == merkle_root(l),
    decreases k,
{
    if k > 0 {
        lemma_level_root(l, (k - 1) as nat);
        let prev = level(l, (k - 1) as nat);
        lemma_pow2_half(prev.len());
    }
}


/// Opening and verifying agree: for leaves `l` (a power of two of them, at
/// least two) and any position `q`, folding the authentication path returned
/// for `q` from the leaf at `q` gives the single entry of the top level that
/// the precomputed levels end with, which is the tree's root.
pub proof fn lemma_open_then_verify(l: Seq<Seq<u8>>, q: int)
    requires
        is_pow2(l.len()),
        l.len() >= 2,
        0 <= q < l.len(),
    ensures
        fold_path(l[q], q, open_path(l, q)) == level(l, log2(l.len()))[0],
        level(l, log2(l.len()))[0] == merkle_root(l),
{
    lemma_open_verify(l, q);
    lemma_level_root(l, log2(l.len()));
    let top = level(l, log2(l.len()));
    assert(log2(top.len()) == 0);
    assert(top.len() == 1);
}

/// Honest interleaved openings verify: for rows `segments` of a common
/// length, the leaves built from their columns (padded as
/// `blake3_merkle_interleaved_leaves` pads them) and any column `q`, the
/// authentication path that `blake3_merkle_open_interleaved` returns for `q`,
/// folded from the digest of column `q` (the check of
/// `blake3_merkle_verify_interleaved_column`), gives the root that
/// `blake3_merkle_root_from_levels` reads off the precomputed levels.
pub proof fn lemma_interleaved_opening_verifies(segments: Seq<Vec<Vec<u64>>>, q: int)
    requires
        segments.len() > 0,
        forall|s: int| 0 <= s < segments.len() ==> (#[trigger] segments[s])@.len() == segments[0]@.len(),
        0 <= q < segments[0]@.len(),
    ensures
        ({
            let n = segments[0]@.len();
            let l = pad(Seq::new(n, |c: int| leaf(column(segments, c))), padded_len(n));
            &&& fold_path(leaf(column(segments, q)), q, open_path(l, q)) == level(l, log2(l.len()))[0]
            &&& level(l, log2(l.len()))[0] == merkle_root(l)
        }),
{
    let n = segments[0]@.len();
    let l = pad(Seq::new(n, |c: int| leaf(column(segments, c))), padded_len(n));
    lemma_padded_len(n);
    assert(l[q] == leaf(column(segments, q)));
    lemma_open_then_verify(l, q);
}

} // verus!
