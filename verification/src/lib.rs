//! Column preordering for sparse matrices.
//!
//! Orders the columns of a sparse matrix from sparsest to densest, a
//! preprocessing step used before factorization to reduce fill-in. The
//! ordering is driven by a bucket priority queue ([`ColsQueue`]) that
//! extracts minimum-score columns in amortized constant time.

use vstd::prelude::*;

mod cols;
mod perm;
mod queue;

pub use cols::BlockDiagForm;
pub use cols::ColAccessor;
pub use cols::ColStorage;
pub use cols::Slice;
pub use perm::Perm;
pub use queue::ColsQueue;

verus! {

/// Number of nonzero entries of column `c`, as the accessor reports it.
pub open spec fn col_nnz<A: ColAccessor>(mat: &A, c: int) -> nat {
    mat.col_rows(c).len()
}

/// `ord` lists every column in `[0, size)` exactly once, with nonzero
/// counts non-decreasing, and columns of equal count in increasing index
/// order (the queue's first-in, first-out tie break).
pub open spec fn is_density_order<A: ColAccessor>(ord: Seq<usize>, mat: &A, size: int) -> bool {
    &&& ord.len() == size
    &&& forall|i: int| 0 <= i < size ==> (#[trigger] ord[i] as int) < size
    &&& forall|c: usize| (c as int) < size ==> ord.contains(c)
    &&& forall|i: int, j: int|
        0 <= i < j < size ==> col_nnz(mat, #[trigger] ord[i] as int) < col_nnz(
            mat,
            #[trigger] ord[j] as int,
        ) || (col_nnz(mat, ord[i] as int) == col_nnz(mat, ord[j] as int) && ord[i] < ord[j])
}

/// The queue state during an ordering run: every held item is a column
/// index below `bound`, sits in the bucket matching its score (nonzero
/// count minus one), and items within a bucket are in increasing index
/// order.
spec fn buckets_ok<A: ColAccessor>(bs: Seq<Seq<usize>>, mat: &A, bound: int) -> bool {
    &&& forall|s: int, k: int|
        0 <= s < bs.len() && 0 <= k < bs[s].len() ==> (#[trigger] bs[s][k] as int) < bound
    &&& forall|s: int, k: int|
        0 <= s < bs.len() && 0 <= k < bs[s].len() ==> col_nnz(mat, #[trigger] bs[s][k] as int)
            == s + 1
    &&& forall|s: int, k1: int, k2: int|
        0 <= s < bs.len() && 0 <= k1 < k2 < bs[s].len() ==> #[trigger] bs[s][k1]
            < #[trigger] bs[s][k2]
}

/// Simplest preordering: orders columns by their number of nonzero entries,
/// sparsest first, with ties broken towards the lower column index.
///
/// Every column in `[0, size)` must have at least one and at most `size`
/// nonzero entries, so that its score (count minus one) falls in
/// `[0, size)`.
pub fn order_simple<A: ColAccessor>(size: usize, mat: &A) -> (perm: Perm)
    requires
        mat.wf(),
        size as nat <= mat.num_cols(),
        forall|c: int| 0 <= c < size as int ==> 1 <= (#[trigger] mat.col_rows(c)).len() <= size,
    ensures
        perm.wf(size as int),
        is_density_order(perm.new2orig@, mat, size as int),
{
    let mut cols_queue = ColsQueue::new(size);
    let mut c: usize = 0;
    while c < size
        invariant
            mat.wf(),
            size as nat <= mat.num_cols(),
            forall|cc: int|
                0 <= cc < size as int ==> 1 <= (#[trigger] mat.col_rows(cc)).len() <= size,
            c <= size,
            cols_queue.wf(),
            cols_queue.cap() == size as int,
            cols_queue.buckets().len() == size as int,
            queue::total_of(cols_queue.buckets()) == c as nat,
            buckets_ok(cols_queue.buckets(), mat, c as int),
            forall|col: usize| (col as int) < c as int ==> cols_queue.has_col(col),
        decreases size - c,
    {
        let rows = mat.col(c);
        let score = rows.len() - 1;
        proof {
            if cols_queue.has_col(c) {
                let (s, k) = choose|s: int, k: int|
                    0 <= s < cols_queue.buckets().len() && 0 <= k < cols_queue.buckets()[s].len()
                        && #[trigger] cols_queue.buckets()[s][k] == c;
                assert(false);
            }
        }
        let ghost qpre = cols_queue;
        let ghost ob = qpre.buckets();
        cols_queue.add(c, score);
        proof {
            let nb = cols_queue.buckets();
            assert(nb == ob.update(score as int, ob[score as int].push(c)));
            assert forall|col: usize| (col as int) < c as int + 1 implies cols_queue.has_col(
                col,
            ) by {
                if (col as int) < c as int {
                    assert(qpre.has_col(col));
                    let (s, k) = choose|s: int, k: int|
                        0 <= s < qpre.buckets().len() && 0 <= k < qpre.buckets()[s].len()
                            && #[trigger] qpre.buckets()[s][k] == col;
                    assert(nb[s][k] == col);
                } else {
                    assert(nb[score as int][ob[score as int].len() as int] == c);
                }
            }
        }
        c += 1;
    }

    let mut new2orig: Vec<usize> = Vec::with_capacity(size);
    while new2orig.len() < size
        invariant
            mat.wf(),
            cols_queue.wf(),
            cols_queue.cap() == size as int,
            cols_queue.buckets().len() == size as int,
            new2orig@.len() <= size as int,
            queue::total_of(cols_queue.buckets()) == size as nat - new2orig@.len(),
            buckets_ok(cols_queue.buckets(), mat, size as int),
            forall|col: usize|
                (col as int) < size as int ==> new2orig@.contains(col) || cols_queue.has_col(col),
            forall|i: int| 0 <= i < new2orig@.len() ==> !cols_queue.has_col(#[trigger] new2orig@[i]),
            forall|i: int| 0 <= i < new2orig@.len() ==> (#[trigger] new2orig@[i] as int) < size as int,
            forall|i: int, j: int|
                0 <= i < j < new2orig@.len() ==> col_nnz(mat, #[trigger] new2orig@[i] as int)
                    < col_nnz(mat, #[trigger] new2orig@[j] as int) || (col_nnz(
                    mat,
                    new2orig@[i] as int,
                ) == col_nnz(mat, new2orig@[j] as int) && new2orig@[i] < new2orig@[j]),
            forall|i: int, s: int, k: int|
                0 <= i < new2orig@.len() && 0 <= s < cols_queue.buckets().len() && 0 <= k
                    < cols_queue.buckets()[s].len() ==> col_nnz(mat, #[trigger] new2orig@[i] as int)
                    < col_nnz(mat, #[trigger] cols_queue.buckets()[s][k] as int) || (col_nnz(
                    mat,
                    new2orig@[i] as int,
                ) == col_nnz(mat, cols_queue.buckets()[s][k] as int) && new2orig@[i]
                    < cols_queue.buckets()[s][k]),
        decreases size - new2orig@.len(),
    {
        let ghost qpre = cols_queue;
        let ghost ob = qpre.buckets();
        let ghost out0 = new2orig@;
        let min = cols_queue.pop_min();
        let col = min.unwrap();
        new2orig.push(col);
        proof {
            let s0 = queue::first_nonempty(ob);
            let nb = cols_queue.buckets();
            assert(nb == ob.update(s0, ob[s0].drop_first()));
            assert(col == ob[s0][0]);
            assert(new2orig@ == out0.push(col));
            assert(0 <= s0 < ob.len() && ob[s0].len() > 0);
            // The remaining items keep their properties; positions in the
            // shortened bucket shift down by one.
            assert forall|s: int, k: int|
                0 <= s < nb.len() && 0 <= k < nb[s].len() implies ((#[trigger] nb[s][k] as int)
                < size as int && col_nnz(mat, nb[s][k] as int) == s + 1) by {
                if s == s0 {
                    assert(nb[s][k] == ob[s][k + 1]);
                } else {
                    assert(nb[s][k] == ob[s][k]);
                }
            }
            assert forall|s: int, k1: int, k2: int|
                0 <= s < nb.len() && 0 <= k1 < k2 < nb[s].len() implies #[trigger] nb[s][k1]
                < #[trigger] nb[s][k2] by {
                if s == s0 {
                    assert(nb[s][k1] == ob[s][k1 + 1] && nb[s][k2] == ob[s][k2 + 1]);
                } else {
                    assert(nb[s][k1] == ob[s][k1] && nb[s][k2] == ob[s][k2]);
                }
            }
            // Each column is still accounted for: the popped one in the
            // output, the others where they were, shifted when they shared
            // the popped column's bucket.
            assert forall|col2: usize|
                (col2 as int) < size as int implies new2orig@.contains(col2)
                || cols_queue.has_col(col2) by {
                if col2 == col {
                    assert(new2orig@[out0.len() as int] == col);
                } else if !out0.contains(col2) {
                    assert(out0.contains(col2) || qpre.has_col(col2));
                    let (s, k) = choose|s: int, k: int|
                        0 <= s < qpre.buckets().len() && 0 <= k < qpre.buckets()[s].len()
                            && #[trigger] qpre.buckets()[s][k] == col2;
                    assert(ob[s][k] == col2);
                    if s == s0 {
                        assert(k != 0);
                        assert(nb[s][k - 1] == col2);
                    } else {
                        assert(nb[s][k] == col2);
                    }
                } else {
                    let i = choose|i: int| 0 <= i < out0.len() && out0[i] == col2;
                    assert(new2orig@[i] == col2);
                }
            }
            // No extracted column is still waiting in the queue.
            assert forall|i: int| 0 <= i < new2orig@.len() implies !cols_queue.has_col(
                #[trigger] new2orig@[i],
            ) by {
                if cols_queue.has_col(new2orig@[i]) {
                    let (s, k) = choose|s: int, k: int|
                        0 <= s < nb.len() && 0 <= k < nb[s].len() && #[trigger] nb[s][k]
                            == new2orig@[i];
                    let ok: int = if s == s0 { k + 1 } else { k };
                    assert(ob[s][ok] == new2orig@[i]);
                    if i < out0.len() {
                        assert(qpre.buckets()[s][ok] == out0[i]);
                        assert(qpre.has_col(out0[i]));
                        assert(false);
                    } else {
                        // the freshly popped column's only old position was
                        // the bucket head that was just dropped
                        assert(ob[s][ok] == col && ob[s0][0] == col);
                        assert(col_nnz(mat, col as int) == s + 1 && col_nnz(mat, col as int) == s0
                            + 1);
                        assert(s == s0);
                        assert(ok != 0);
                        assert(ob[s0][0] < ob[s0][ok]);
                        assert(false);
                    }
                }
            }
            // The extracted column does not precede anything already output.
            assert forall|i: int, j: int|
                0 <= i < j < new2orig@.len() implies (col_nnz(mat, #[trigger] new2orig@[i] as int)
                < col_nnz(mat, #[trigger] new2orig@[j] as int) || (col_nnz(
                mat,
                new2orig@[i] as int,
            ) == col_nnz(mat, new2orig@[j] as int) && new2orig@[i] < new2orig@[j])) by {
                if j < out0.len() {
                    assert(new2orig@[i] == out0[i] && new2orig@[j] == out0[j]);
                } else {
                    assert(new2orig@[j] == col && new2orig@[i] == out0[i]);
                    assert(qpre.buckets()[s0][0] == col);
                }
            }
            // And it precedes everything still waiting.
            assert forall|i: int, s: int, k: int|
                0 <= i < new2orig@.len() && 0 <= s < nb.len() && 0 <= k < nb[s].len() implies (
            col_nnz(mat, #[trigger] new2orig@[i] as int) < col_nnz(
                mat,
                #[trigger] nb[s][k] as int,
            ) || (col_nnz(mat, new2orig@[i] as int) == col_nnz(mat, nb[s][k] as int)
                && new2orig@[i] < nb[s][k])) by {
                let ok: int = if s == s0 { k + 1 } else { k };
                assert(nb[s][k] == ob[s][ok]);
                if i < out0.len() {
                    assert(new2orig@[i] == out0[i]);
                    assert(qpre.buckets()[s][ok] == ob[s][ok]);
                } else {
                    assert(new2orig@[i] == col && col == ob[s0][0]);
                    if s == s0 {
                        assert(ob[s0][0] < ob[s0][ok]);
                    } else if s < s0 {
                        assert(ob[s].len() == 0);
                        assert(false);
                    } else {
                        assert(col_nnz(mat, col as int) == s0 + 1);
                        assert(col_nnz(mat, ob[s][ok] as int) == s + 1);
                    }
                }
            }
        }
    }
    proof {
        assert forall|col: usize| (col as int) < size as int implies new2orig@.contains(col) by {
            if cols_queue.has_col(col) {
                let (s, k) = choose|s: int, k: int|
                    0 <= s < cols_queue.buckets().len() && 0 <= k < cols_queue.buckets()[s].len()
                        && #[trigger] cols_queue.buckets()[s][k] == col;
                queue::lemma_bucket_le_total(cols_queue.buckets(), s);
                assert(false);
            }
        }
        assert forall|i: int, j: int| 0 <= i < j < new2orig@.len() implies new2orig@[i]
            != new2orig@[j] by {
            if new2orig@[i] == new2orig@[j] {
                assert(col_nnz(mat, new2orig@[i] as int) == col_nnz(mat, new2orig@[j] as int));
            }
        }
    }

    let mut orig2new: Vec<usize> = Vec::with_capacity(size);
    let mut i: usize = 0;
    while i < size
        invariant
            i <= size,
            orig2new@.len() == i as int,
            forall|p: int| 0 <= p < i as int ==> (#[trigger] orig2new@[p] as int) < size as int,
        decreases size - i,
    {
        orig2new.push(0);
        i += 1;
    }
    let mut n: usize = 0;
    while n < size
        invariant
            n <= size,
            orig2new@.len() == size as int,
            new2orig@.len() == size as int,
            forall|p: int| 0 <= p < size as int ==> (#[trigger] new2orig@[p] as int) < size as int,
            forall|p: int, q: int| 0 <= p < q < size as int ==> new2orig@[p] != new2orig@[q],
            forall|p: int| 0 <= p < size as int ==> (#[trigger] orig2new@[p] as int) < size as int,
            forall|j: int| 0 <= j < n as int ==> orig2new@[#[trigger] new2orig@[j] as int] == j,
        decreases size - n,
    {
        let orig = new2orig[n];
        orig2new.set(orig, n);
        proof {
            assert forall|j: int|
                0 <= j < n as int + 1 implies orig2new@[(#[trigger] new2orig@[j]) as int] == j by {
                if j < n as int {
                    assert(new2orig@[j] != new2orig@[n as int]);
                }
            }
        }
        n += 1;
    }
    proof {
        assert forall|p: int|
            0 <= p < size as int implies new2orig@[(#[trigger] orig2new@[p]) as int] == p by {
            let pc = p as usize;
            assert(new2orig@.contains(pc));
            let j = choose|j: int| 0 <= j < new2orig@.len() && new2orig@[j] == pc;
            assert(orig2new@[p] == j);
        }
    }
    Perm { orig2new, new2orig }
}

/// The first `i` positions of two density orders of the same matrix agree.
proof fn lemma_density_order_prefix<A: ColAccessor>(
    a: Seq<usize>,
    b: Seq<usize>,
    mat: &A,
    size: int,
    i: int,
)
    requires
        is_density_order(a, mat, size),
        is_density_order(b, mat, size),
        0 <= i <= size,
    ensures
        forall|j: int| 0 <= j < i ==> a[j] == b[j],
    decreases i,
{
    if i > 0 {
        lemma_density_order_prefix(a, b, mat, size, i - 1);
        assert(a[i - 1] == b[i - 1]) by {
            let x = a[i - 1];
            assert(b.contains(x));
            let j = choose|j: int| 0 <= j < b.len() && b[j] == x;
            if j < i - 1 {
                assert(a[j] == b[j]);
                assert(false);
            } else if j > i - 1 {
                let y = b[i - 1];
                assert(a.contains(y));
                let m = choose|m: int| 0 <= m < a.len() && a[m] == y;
                if m < i - 1 {
                    assert(a[m] == b[m]);
                    assert(false);
                } else if m > i - 1 {
                    // the keys would then be strictly ordered both ways
                    assert(col_nnz(mat, b[i - 1] as int) < col_nnz(mat, b[j] as int) || (col_nnz(
                        mat,
                        b[i - 1] as int,
                    ) == col_nnz(mat, b[j] as int) && b[i - 1] < b[j]));
                    assert(col_nnz(mat, a[i - 1] as int) < col_nnz(mat, a[m] as int) || (col_nnz(
                        mat,
                        a[i - 1] as int,
                    ) == col_nnz(mat, a[m] as int) && a[i - 1] < a[m]));
                    assert(false);
                }
            }
        }
    }
}

/// Law: the density order of a matrix is unique — any two sequences
/// satisfying `is_density_order` for the same accessor and size are equal.
/// Running the ordering twice on the same input therefore returns the same
/// column sequence.
pub proof fn lemma_density_order_unique<A: ColAccessor>(
    a: Seq<usize>,
    b: Seq<usize>,
    mat: &A,
    size: int,
)
    requires
        is_density_order(a, mat, size),
        is_density_order(b, mat, size),
    ensures
        a == b,
{
    lemma_density_order_prefix(a, b, mat, size, size);
    assert(a =~= b);
}

/// Law: `order_simple` is deterministic. Any two permutations that satisfy
/// its postcondition for the same accessor and size are equal in both
/// arrays.
pub proof fn lemma_order_simple_deterministic<A: ColAccessor>(
    p1: Perm,
    p2: Perm,
    mat: &A,
    size: int,
)
    requires
        p1.wf(size),
        p2.wf(size),
        is_density_order(p1.new2orig@, mat, size),
        is_density_order(p2.new2orig@, mat, size),
    ensures
        p1.new2orig@ == p2.new2orig@,
        p1.orig2new@ == p2.orig2new@,
{
    lemma_density_order_unique(p1.new2orig@, p2.new2orig@, mat, size);
    perm::lemma_perm_inverse_unique(p1, p2, size);
}

} // verus!
