//! Sparse matrix-matrix multiplication in the row-wise accumulation style:
//! a dry-run pass bounds the result's entry count, and an accumulation pass
//! merges each output row through an array-encoded linked list of the columns
//! touched, dropping sums that are exactly zero.

use vstd::prelude::*;
use vstd::set_lib::{set_int_range, lemma_int_range, lemma_len_subset};

use crate::csr::{CSR, CsrView, lemma_indptr_mono, lemma_row_in_bounds};
use crate::scalar::{ONE, POS_ZERO, add_bits, f64_add_bits, f64_mul_bits, is_nan_bits, is_zero_bits, mul_bits};

verus! {

/// The one failure multiplication reports: the bound on the result's entry
/// count does not fit the count's type.
#[derive(Clone, Copy, Debug, PartialEq, Eq, Structural)]
pub enum MatMulError {
    /// The estimated entry count of the product overflows `usize`.
    NnzTooLarge,
}

/// In-list sentinel: the column is not on the current row's touched list.
pub const ABSENT: usize = usize::MAX;

/// In-list sentinel: the end of the touched list.
pub const END_OF_LIST: usize = usize::MAX - 1;

/// Column `k` receives a contribution for output row `i` from some entry of
/// `a`'s row `i` at a position below `jmax`, through the matching row of `b`.
pub open spec fn touches_col(a: CsrView, b: CsrView, i: int, jmax: int, k: int) -> bool {
    exists|jj: int, kk: int|
        #![trigger a.indices[jj], b.indices[kk]]
        a.row_start(i) <= jj < jmax
        && b.row_start(a.indices[jj] as int) <= kk < b.row_end(a.indices[jj] as int)
        && b.indices[kk] == k
}

/// The distinct output columns of row `i` of the product of `a` and `b`.
pub open spec fn row_cols(a: CsrView, b: CsrView, i: int) -> Set<int> {
    Set::new(|k: int| 0 <= k < b.ncols && touches_col(a, b, i, a.row_end(i), k))
}

/// Sum of the distinct-column counts of the first `i` output rows.
pub open spec fn est_upto(a: CsrView, b: CsrView, i: int) -> int
    decreases i,
{
    if i <= 0 {
        0
    } else {
        est_upto(a, b, i - 1) + row_cols(a, b, i - 1).len()
    }
}

/// The dry-run bound on the product's entry count: for each output row, the
/// number of distinct columns reachable through any path, summed over rows.
/// An upper bound on the product's entries only because a sum may still
/// cancel to exact zero.
pub open spec fn nnz_estimate(a: CsrView, b: CsrView) -> int {
    est_upto(a, b, a.nrows as int)
}

/// Dry-run pass: count, row by row, the distinct columns the product would
/// touch, reporting overflow instead of wrapping.
#[verifier::loop_isolation(false)]
#[verifier::rlimit(100)]
fn matmat_maxnnz(nrow: usize, ncol: usize, a: &CSR, b: &CSR) -> (r: Result<usize, MatMulError>)
    requires
        a@.wf(),
        b@.wf(),
        a@.ncols == b@.nrows,
        nrow == a@.nrows,
        ncol == b@.ncols,
    ensures
        match r {
            Ok(n) => n == nnz_estimate(a@, b@),
            Err(e) => nnz_estimate(a@, b@) > usize::MAX && e == MatMulError::NnzTooLarge,
        },
{
    let mut mask: Vec<usize> = Vec::new();
    let mut z: usize = 0;
    while z < ncol
        invariant
            z <= ncol,
            mask@.len() == z,
            forall|k: int| 0 <= k < z ==> mask@[k] == ABSENT,
        decreases ncol - z,
    {
        mask.push(ABSENT);
        z = z + 1;
    }

    let mut nnz: usize = 0;
    let mut i: usize = 0;
    while i < nrow
        invariant
            i <= nrow,
            mask@.len() == ncol,
            forall|k: int| 0 <= k < ncol ==> mask@[k] == ABSENT || mask@[k] < i,
            nnz == est_upto(a@, b@, i as int),
            est_upto(a@, b@, i as int) <= usize::MAX,
        decreases nrow - i,
    {
        let mut row_nnz: usize = 0;
        let ghost mut seen: Set<int> = Set::empty();

        proof {
            lemma_row_in_bounds(a@, i as int);
            lemma_int_range(0, ncol as int);
            assert(seen =~= Set::new(|k: int| 0 <= k < ncol && touches_col(a@, b@, i as int, a@.row_start(i as int), k)));
        }

        let a_start = a.row_ptr(i);
        let a_end = a.row_ptr(i + 1);
        let mut jj = a_start;
        while jj < a_end
            invariant
                a_start == a@.row_start(i as int),
                a_end == a@.row_end(i as int),
                a_start <= jj <= a_end,
                mask@.len() == ncol,
                forall|k: int| 0 <= k < ncol ==> mask@[k] == ABSENT || mask@[k] <= i,
                seen.finite(),
                seen == Set::new(|k: int| 0 <= k < ncol && touches_col(a@, b@, i as int, jj as int, k)),
                forall|k: int| 0 <= k < ncol ==> (seen.contains(k) <==> mask@[k] == i),
                row_nnz == seen.len(),
                seen.subset_of(set_int_range(0, ncol as int)),
            decreases a_end - jj,
        {
            let j = a.index_at(jj);
            proof {
                lemma_row_in_bounds(b@, j as int);
            }
            let b_start = b.row_ptr(j);
            let b_end = b.row_ptr(j + 1);
            let mut kk = b_start;
            while kk < b_end
                invariant
                    a_start <= jj < a_end,
                    j == a@.indices[jj as int],
                    b_start == b@.row_start(j as int),
                    b_end == b@.row_end(j as int),
                    b_start <= kk <= b_end,
                    mask@.len() == ncol,
                    forall|k: int| 0 <= k < ncol ==> mask@[k] == ABSENT || mask@[k] <= i,
                    seen.finite(),
                    seen == Set::new(|k: int| 0 <= k < ncol &&
                        (touches_col(a@, b@, i as int, jj as int, k)
                         || exists|kx: int| b_start <= kx < kk && b@.indices[kx] == k)),
                    forall|k: int| 0 <= k < ncol ==> (seen.contains(k) <==> mask@[k] == i),
                    row_nnz == seen.len(),
                    seen.subset_of(set_int_range(0, ncol as int)),
                decreases b_end - kk,
            {
                let k = b.index_at(kk);
                if mask[k] != i {
                    mask.set(k, i);
                    proof {
                        assert(!seen.contains(k as int));
                        lemma_len_subset(seen, set_int_range(0, ncol as int));
                        seen = seen.insert(k as int);
                        assert(seen.len() <= ncol) by {
                            lemma_len_subset(seen, set_int_range(0, ncol as int));
                        }
                    }
                    row_nnz = row_nnz + 1;
                }
                kk = kk + 1;
                proof {
                    assert(seen =~= Set::new(|x: int| 0 <= x < ncol &&
                        (touches_col(a@, b@, i as int, jj as int, x)
                         || exists|kx: int| b_start <= kx < kk && b@.indices[kx] == x)));
                }
            }
            jj = jj + 1;
            proof {
                assert forall|x: int| touches_col(a@, b@, i as int, jj as int, x) implies
                    (touches_col(a@, b@, i as int, jj - 1, x)
                     || exists|kx: int| b_start <= kx < b_end && b@.indices[kx] == x) by {
                    let (jw, kw): (int, int) = choose|jw: int, kw: int|
                        #![trigger a@.indices[jw], b@.indices[kw]]
                        a@.row_start(i as int) <= jw < jj
                        && b@.row_start(a@.indices[jw] as int) <= kw < b@.row_end(a@.indices[jw] as int)
                        && b@.indices[kw] == x;
                    if jw < jj - 1 {
                        assert(touches_col(a@, b@, i as int, jj - 1, x));
                    }
                }
                assert(seen =~= Set::new(|x: int| 0 <= x < ncol && touches_col(a@, b@, i as int, jj as int, x)));
            }
        }

        proof {
            assert(seen =~= row_cols(a@, b@, i as int));
        }
        if row_nnz > usize::MAX - nnz {
            proof {
                lemma_est_mono(a@, b@, (i + 1) as int, a@.nrows as int);
            }
            return Err(MatMulError::NnzTooLarge);
        }
        nnz = nnz + row_nnz;
        i = i + 1;
        proof {
            assert forall|k: int| 0 <= k < ncol implies mask@[k] == ABSENT || mask@[k] < i by {
                if mask@[k] != ABSENT {
                    assert(mask@[k] <= i - 1);
                }
            }
        }
    }
    Ok(nnz)
}

/// The contribution of `b`'s entry at offset `kk`, scaled by `a`'s entry at
/// offset `jj`: the output column and the binary64 product term.
pub open spec fn pair_at(a: CsrView, b: CsrView, jj: int, kk: int) -> (usize, u64) {
    (b.indices[kk], mul_bits(a.data[jj], b.data[kk]))
}

/// All contributions of `a`'s entry at offset `jj` to its output row, in the
/// storage order of the matching row of `b`.
pub open spec fn b_row_pairs(a: CsrView, b: CsrView, jj: int) -> Seq<(usize, u64)> {
    let j = a.indices[jj] as int;
    Seq::new(b.row_len(j) as nat, |m: int| pair_at(a, b, jj, b.row_start(j) + m))
}

/// The contribution stream of output row `i`, truncated to `a`'s entries
/// below offset `jj`: the (column, term) pairs in the order the accumulation
/// pass consumes them.
#[verifier::opaque]
pub open spec fn stream_upto(a: CsrView, b: CsrView, i: int, jj: int) -> Seq<(usize, u64)>
    decreases jj - a.row_start(i),
{
    if jj <= a.row_start(i) {
        Seq::empty()
    } else {
        stream_upto(a, b, i, jj - 1) + b_row_pairs(a, b, jj - 1)
    }
}

/// The whole contribution stream of output row `i`.
pub open spec fn stream(a: CsrView, b: CsrView, i: int) -> Seq<(usize, u64)> {
    stream_upto(a, b, i, a.row_end(i))
}

/// The accumulated sum for column `k` after consuming the stream `s` left to
/// right, starting from +0.0: the exact order of the binary64 additions.
#[verifier::opaque]
pub open spec fn accum(s: Seq<(usize, u64)>, k: usize) -> u64
    decreases s.len(),
{
    if s.len() == 0 {
        POS_ZERO
    } else {
        let prev = accum(s.drop_last(), k);
        if s.last().0 == k {
            add_bits(prev, s.last().1)
        } else {
            prev
        }
    }
}

/// The distinct columns of the stream `s`, in the order each is first
/// touched.
#[verifier::opaque]
pub open spec fn touch_order(s: Seq<(usize, u64)>) -> Seq<usize>
    decreases s.len(),
{
    if s.len() == 0 {
        Seq::empty()
    } else {
        let t = touch_order(s.drop_last());
        if t.contains(s.last().0) {
            t
        } else {
            t.push(s.last().0)
        }
    }
}

/// The entries emitted for a row after walking the first `m` nodes of the
/// touched list — the columns in reverse touch order — keeping a column only
/// where its accumulated sum is not exactly zero.
#[verifier::opaque]
pub open spec fn emit_upto(s: Seq<(usize, u64)>, m: int) -> Seq<(usize, u64)>
    decreases m,
{
    if m <= 0 {
        Seq::empty()
    } else {
        let t = touch_order(s);
        let k = t[t.len() - m];
        emit_upto(s, m - 1) + (if !is_zero_bits(accum(s, k)) {
            seq![(k, accum(s, k))]
        } else {
            Seq::empty()
        })
    }
}

/// Row `i` of the product of `a` and `b`: the touched columns in reverse
/// touch order, paired with their accumulated sums, the exactly-zero sums
/// dropped.
#[verifier::opaque]
pub open spec fn out_row(a: CsrView, b: CsrView, i: int) -> Seq<(usize, u64)> {
    let s = stream(a, b, i);
    emit_upto(s, touch_order(s).len() as int)
}

/// Appending one pair extends the accumulated sum of its own column by one
/// addition and leaves every other column's sum unchanged.
proof fn lemma_accum_push(s: Seq<(usize, u64)>, pr: (usize, u64), k: usize)
    ensures
        accum(s.push(pr), k) == (if pr.0 == k {
            add_bits(accum(s, k), pr.1)
        } else {
            accum(s, k)
        }),
{
    reveal_with_fuel(accum, 2);
    assert(s.push(pr).drop_last() =~= s);
    assert(s.push(pr).last() == pr);
}

/// Appending one pair adds its column at the end of the touch order exactly
/// when the column is new.
proof fn lemma_touch_push(s: Seq<(usize, u64)>, pr: (usize, u64))
    ensures
        touch_order(s.push(pr)) == (if touch_order(s).contains(pr.0) {
            touch_order(s)
        } else {
            touch_order(s).push(pr.0)
        }),
{
    reveal_with_fuel(touch_order, 2);
    assert(s.push(pr).drop_last() =~= s);
    assert(s.push(pr).last() == pr);
}

/// No column appears twice in a touch order.
proof fn lemma_touch_no_dup(s: Seq<(usize, u64)>)
    ensures
        touch_order(s).no_duplicates(),
    decreases s.len(),
{
    reveal_with_fuel(touch_order, 2);
    if s.len() > 0 {
        lemma_touch_no_dup(s.drop_last());
    }
}

/// A column that is never touched accumulates nothing.
proof fn lemma_accum_untouched(s: Seq<(usize, u64)>, k: usize)
    requires
        !touch_order(s).contains(k),
    ensures
        accum(s, k) == POS_ZERO,
    decreases s.len(),
{
    reveal_with_fuel(touch_order, 2);
    reveal_with_fuel(accum, 2);
    if s.len() > 0 {
        let t0 = touch_order(s.drop_last());
        if t0.contains(s.last().0) {
            assert(touch_order(s) == t0);
        } else {
            assert(touch_order(s) == t0.push(s.last().0));
            assert(t0.push(s.last().0)[t0.len() as int] == s.last().0);
        }
        assert(!t0.contains(k)) by {
            if t0.contains(k) {
                let idx = choose|idx: int| 0 <= idx < t0.len() && t0[idx] == k;
                assert(touch_order(s)[idx] == k);
                assert(touch_order(s).contains(k));
            }
        }
        assert(s.last().0 != k);
        lemma_accum_untouched(s.drop_last(), k);
    }
}

/// Pushing keeps every element of a sequence, and adds the pushed one.
proof fn lemma_push_contains(t: Seq<usize>, k: usize)
    ensures
        forall|x: usize| t.contains(x) ==> #[trigger] t.push(k).contains(x),
        t.push(k).contains(k),
{
    assert(t.push(k)[t.len() as int] == k);
    assert forall|x: usize| t.contains(x) implies #[trigger] t.push(k).contains(x) by {
        let mx = choose|mx: int| 0 <= mx < t.len() && t[mx] == x;
        assert(t.push(k)[mx] == x);
    }
}

/// In a pointer array whose adjacent entries never decrease, any earlier
/// entry bounds any later one.
proof fn lemma_ptr_mono(ptr: Seq<usize>, lo: int, hi: int, n: int)
    requires
        0 <= lo <= hi <= n,
        n < ptr.len(),
        forall|r: int| 0 <= r < n ==> (#[trigger] ptr[r]) <= ptr[r + 1],
    ensures
        ptr[lo] <= ptr[hi],
    decreases hi - lo,
{
    if lo < hi {
        lemma_ptr_mono(ptr, lo, hi - 1, n);
    }
}

/// A sequence of distinct values below `n` has at most `n` elements.
proof fn lemma_nodup_len_bound(t: Seq<usize>, n: int)
    requires
        t.no_duplicates(),
        forall|mx: int| 0 <= mx < t.len() ==> t[mx] < n,
        0 <= n,
    ensures
        t.len() <= n,
{
    let ti = t.map_values(|x: usize| x as int);
    assert(ti.no_duplicates());
    ti.unique_seq_to_set();
    assert forall|x: int| ti.to_set().contains(x) implies set_int_range(0, n).contains(x) by {
        let mx = choose|mx: int| 0 <= mx < ti.len() && ti[mx] == x;
        assert(t[mx] < n);
    }
    lemma_int_range(0, n);
    lemma_len_subset(ti.to_set(), set_int_range(0, n));
}

/// What the emission walk produces: at most one entry per node walked, every
/// emitted column drawn from the already-walked tail of the touch order, and
/// no column emitted twice.
#[verifier::rlimit(100)]
proof fn lemma_emit_shape(s: Seq<(usize, u64)>, m: int)
    requires
        0 <= m <= touch_order(s).len(),
    ensures
        emit_upto(s, m).len() <= m,
        forall|p: int| 0 <= p < emit_upto(s, m).len() ==> exists|mx: int|
            touch_order(s).len() - m <= mx < touch_order(s).len()
            && (#[trigger] emit_upto(s, m)[p].0) == touch_order(s)[mx],
        forall|p: int, q: int| 0 <= p < q < emit_upto(s, m).len()
            ==> emit_upto(s, m)[p].0 != emit_upto(s, m)[q].0,
    decreases m,
{
    reveal_with_fuel(emit_upto, 2);
    if m > 0 {
        lemma_emit_shape(s, m - 1);
        lemma_touch_no_dup(s);
        let t = touch_order(s);
        let k = t[t.len() - m];
        let prev = emit_upto(s, m - 1);
        assert forall|p: int| 0 <= p < emit_upto(s, m).len() implies exists|mx: int|
            t.len() - m <= mx < t.len()
            && (#[trigger] emit_upto(s, m)[p].0) == t[mx] by {
            if p < prev.len() {
                assert(emit_upto(s, m)[p] == prev[p]);
                let mx = choose|mx: int| t.len() - (m - 1) <= mx < t.len() && prev[p].0 == t[mx];
                assert(t.len() - m <= mx < t.len() && emit_upto(s, m)[p].0 == t[mx]);
            } else {
                assert(emit_upto(s, m)[p].0 == t[t.len() - m]);
            }
        }
        assert forall|p: int, q: int| 0 <= p < q < emit_upto(s, m).len() implies
            emit_upto(s, m)[p].0 != emit_upto(s, m)[q].0 by {
            if q >= prev.len() {
                assert(emit_upto(s, m)[q].0 == k);
                let mx = choose|mx: int| t.len() - (m - 1) <= mx < t.len() && prev[p].0 == t[mx];
                assert(t[mx] != t[t.len() - m]);
            }
        }
    }
}

/// Accumulate one output row: merge the contributions of `a`'s row `i`
/// through the rows of `b` into the scratch buffers, then drain the touched
/// list onto the output arrays in reverse touch order, dropping exact zeros
/// and leaving the buffers clean for the next row.
#[verifier::loop_isolation(false)]
#[verifier::rlimit(100)]
#[verifier::spinoff_prover]
fn accumulate_row(
    a: &CSR,
    b: &CSR,
    i: usize,
    ncol: usize,
    sums: &mut Vec<u64>,
    next: &mut Vec<usize>,
    indices: &mut Vec<usize>,
    data: &mut Vec<u64>,
)
    requires
        a@.wf(),
        b@.wf(),
        a@.ncols == b@.nrows,
        i < a@.nrows,
        ncol == b@.ncols,
        ncol + 2 <= usize::MAX,
        old(sums)@.len() == ncol,
        old(next)@.len() == ncol,
        forall|k: int| 0 <= k < ncol ==> old(next)@[k] == ABSENT,
        forall|k: int| 0 <= k < ncol ==> old(sums)@[k] == POS_ZERO,
        old(indices)@.len() == old(data)@.len(),
        forall|p: int| 0 <= p < old(indices)@.len() ==> (#[trigger] old(indices)@[p]) < ncol,
    ensures
        final(sums)@.len() == ncol,
        final(next)@.len() == ncol,
        forall|k: int| 0 <= k < ncol ==> final(next)@[k] == ABSENT,
        forall|k: int| 0 <= k < ncol ==> final(sums)@[k] == POS_ZERO,
        final(indices)@ == old(indices)@ + out_row(a@, b@, i as int).map_values(|pr: (usize, u64)| pr.0),
        final(data)@ == old(data)@ + out_row(a@, b@, i as int).map_values(|pr: (usize, u64)| pr.1),
        final(indices)@.len() == final(data)@.len(),
        forall|p: int| 0 <= p < final(indices)@.len() ==> (#[trigger] final(indices)@[p]) < ncol,
{
    let mut head: usize = END_OF_LIST;
    let mut length: usize = 0;
    let ghost mut t: Seq<usize> = Seq::empty();
    let ghost mut ps: Seq<(usize, u64)> = Seq::empty();

    proof {
        lemma_row_in_bounds(a@, i as int);
        reveal_with_fuel(stream_upto, 1);
        reveal_with_fuel(touch_order, 1);
        reveal_with_fuel(accum, 1);
        assert(stream_upto(a@, b@, i as int, a@.row_start(i as int)) =~= Seq::<(usize, u64)>::empty());
        assert(touch_order(Seq::<(usize, u64)>::empty()) =~= Seq::<usize>::empty());
        assert forall|k: usize| k < ncol implies accum(Seq::<(usize, u64)>::empty(), k) == POS_ZERO by {
        }
    }

    let a_start = a.row_ptr(i);
    let a_end = a.row_ptr(i + 1);
    let mut jj = a_start;
    while jj < a_end
        invariant
            a_start == a@.row_start(i as int),
            a_end == a@.row_end(i as int),
            a_start <= jj <= a_end,
            next@.len() == ncol,
            sums@.len() == ncol,
            indices@ == old(indices)@,
            data@ == old(data)@,
            ps == stream_upto(a@, b@, i as int, jj as int),
            t == touch_order(ps),
            forall|k: usize| k < ncol ==> sums@[k as int] == accum(ps, k),
            length == t.len(),
            head == (if t.len() == 0 { END_OF_LIST } else { t.last() as usize }),
            forall|mx: int| 0 <= mx < t.len() ==>
                next@[#[trigger] t[mx] as int] == (if mx == 0 { END_OF_LIST } else { t[mx - 1] as usize }),
            forall|k: usize| k < ncol && !t.contains(k) ==> next@[k as int] == ABSENT,
            forall|mx: int| 0 <= mx < t.len() ==> (#[trigger] t[mx]) < ncol,
            t.no_duplicates(),
        decreases a_end - jj,
    {
        let j = a.index_at(jj);
        let v = a.data_at(jj);
        proof {
            lemma_row_in_bounds(b@, j as int);
        }
        let b_start = b.row_ptr(j);
        let b_end = b.row_ptr(j + 1);
        let mut kk = b_start;
        while kk < b_end
            invariant
                a_start <= jj < a_end,
                j == a@.indices[jj as int],
                v == a@.data[jj as int],
                b_start == b@.row_start(j as int),
                b_end == b@.row_end(j as int),
                b_start <= kk <= b_end,
                next@.len() == ncol,
                sums@.len() == ncol,
                indices@ == old(indices)@,
                data@ == old(data)@,
                ps == stream_upto(a@, b@, i as int, jj as int)
                    + b_row_pairs(a@, b@, jj as int).take(kk - b_start),
                t == touch_order(ps),
                forall|k: usize| k < ncol ==> sums@[k as int] == accum(ps, k),
                length == t.len(),
                head == (if t.len() == 0 { END_OF_LIST } else { t.last() as usize }),
                forall|mx: int| 0 <= mx < t.len() ==>
                    next@[#[trigger] t[mx] as int] == (if mx == 0 { END_OF_LIST } else { t[mx - 1] as usize }),
                forall|k: usize| k < ncol && !t.contains(k) ==> next@[k as int] == ABSENT,
                forall|mx: int| 0 <= mx < t.len() ==> (#[trigger] t[mx]) < ncol,
                t.no_duplicates(),
            decreases b_end - kk,
        {
            let k = b.index_at(kk);
            let w = b.data_at(kk);
            let term = f64_mul_bits(v, w);
            let cur = sums[k];
            let newsum = f64_add_bits(cur, term);
            sums.set(k, newsum);

            let ghost pr = pair_at(a@, b@, jj as int, kk as int);

            proof {
                assert(pr.0 == k && pr.1 == mul_bits(v, w));
                lemma_accum_push(ps, pr, k);
                lemma_touch_push(ps, pr);
            }

            if next[k] == ABSENT {
                proof {
                    assert(!t.contains(k)) by {
                        if t.contains(k) {
                            let mx = choose|mx: int| 0 <= mx < t.len() && t[mx] == k;
                            assert(next@[t[mx] as int] != ABSENT);
                        }
                    }
                    assert(touch_order(ps.push(pr)) == t.push(k));
                    lemma_push_contains(t, k);
                    t = t.push(k);
                    lemma_nodup_len_bound(t, ncol as int);
                }
                next.set(k, head);
                head = k;
                length = length + 1;
            } else {
                proof {
                    assert(t.contains(k)) by {
                        assert(next@[k as int] != ABSENT);
                    }
                    assert(touch_order(ps.push(pr)) == t);
                }
            }
            kk = kk + 1;
            proof {
                let bp = b_row_pairs(a@, b@, jj as int);
                assert(bp[kk - 1 - b_start] == pr);
                assert(bp.take(kk - b_start) =~= bp.take(kk - 1 - b_start).push(pr));
                assert(stream_upto(a@, b@, i as int, jj as int) + bp.take(kk - b_start) =~= ps.push(pr));
                assert forall|kx: usize| kx < ncol implies
                    sums@[kx as int] == accum(ps.push(pr), kx) by {
                    lemma_accum_push(ps, pr, kx);
                }
                ps = ps.push(pr);
            }
        }
        jj = jj + 1;
        proof {
            reveal_with_fuel(stream_upto, 2);
            let bp = b_row_pairs(a@, b@, jj - 1);
            assert(bp.take(b_end - b_start) =~= bp);
            assert(stream_upto(a@, b@, i as int, jj as int)
                == stream_upto(a@, b@, i as int, jj - 1) + bp);
        }
    }

    let ghost s = stream(a@, b@, i as int);
    proof {
        assert(s == stream_upto(a@, b@, i as int, a_end as int));
        assert(ps == s);
        assert(t == touch_order(s));
        lemma_touch_no_dup(s);
        assert forall|k: usize| k < ncol && !t.take(t.len() as int).contains(k) implies
            next@[k as int] == ABSENT && sums@[k as int] == POS_ZERO by {
            assert(t.take(t.len() as int) =~= t);
            lemma_accum_untouched(s, k);
        }
        reveal_with_fuel(emit_upto, 1);
        assert(emit_upto(s, 0) =~= Seq::<(usize, u64)>::empty());
        assert(indices@ =~= old(indices)@ + emit_upto(s, 0).map_values(|pr: (usize, u64)| pr.0));
        assert(data@ =~= old(data)@ + emit_upto(s, 0).map_values(|pr: (usize, u64)| pr.1));
    }

    let mut m: usize = 0;
    while m < length
        invariant
            m <= length,
            length == t.len(),
            next@.len() == ncol,
            sums@.len() == ncol,
            forall|mx: int| 0 <= mx < t.len() ==> (#[trigger] t[mx]) < ncol,
            t.no_duplicates(),
            t == touch_order(s),
            s == stream(a@, b@, i as int),
            head == (if t.len() - m == 0 { END_OF_LIST } else { t[t.len() - m - 1] as usize }),
            forall|mx: int| 0 <= mx < t.len() - m ==>
                next@[#[trigger] t[mx] as int] == (if mx == 0 { END_OF_LIST } else { t[mx - 1] as usize }),
            forall|k: usize| k < ncol && !t.take(t.len() - m).contains(k) ==>
                next@[k as int] == ABSENT && sums@[k as int] == POS_ZERO,
            forall|mx: int| 0 <= mx < t.len() - m ==>
                sums@[#[trigger] t[mx] as int] == accum(s, t[mx]),
            indices@ == old(indices)@ + emit_upto(s, m as int).map_values(|pr: (usize, u64)| pr.0),
            data@ == old(data)@ + emit_upto(s, m as int).map_values(|pr: (usize, u64)| pr.1),
            indices@.len() == data@.len(),
            forall|p: int| 0 <= p < indices@.len() ==> (#[trigger] indices@[p]) < ncol,
        decreases length - m,
    {
        let k = head;
        proof {
            assert(t.take(t.len() - m).contains(t[t.len() - m - 1])) by {
                assert(t.take(t.len() - m)[t.len() - m - 1] == t[t.len() - m - 1]);
            }
            assert(k == t[t.len() - m - 1] && (k as int) < ncol as int);
            assert(sums@[k as int] == accum(s, k));
        }
        let sv = sums[k];
        if crate::scalar::nonzero_bits(sv) {
            indices.push(k);
            data.push(sv);
        }
        head = next[k];
        next.set(k, ABSENT);
        sums.set(k, POS_ZERO);
        m = m + 1;
        proof {
            lemma_emit_step(s, m as int, old(indices)@, old(data)@, indices@, data@);
            let mi = m as int;
            assert forall|kx: usize| kx < ncol && !t.take(t.len() - mi).contains(kx) implies
                next@[kx as int] == ABSENT && sums@[kx as int] == POS_ZERO by {
                if kx != k {
                    if t.take(t.len() - mi + 1).contains(kx) {
                        let mx = choose|mx: int| 0 <= mx < t.len() - mi + 1
                            && (#[trigger] t.take(t.len() - mi + 1)[mx]) == kx;
                        assert(t.take(t.len() - mi)[mx] == kx);
                    }
                }
            }
            assert forall|mx: int| 0 <= mx < t.len() - mi implies
                next@[#[trigger] t[mx] as int] == (if mx == 0 { END_OF_LIST } else { t[mx - 1] as usize }) by {
                assert(t[mx] != k);
            }
            assert forall|mx: int| 0 <= mx < t.len() - mi implies
                sums@[#[trigger] t[mx] as int] == accum(s, t[mx]) by {
                assert(t[mx] != k);
            }
        }
    }

    proof {
        assert forall|k: usize| k < ncol implies next@[k as int] == ABSENT && sums@[k as int] == POS_ZERO by {
            assert(t.take(t.len() - length) =~= Seq::<usize>::empty());
            assert(!t.take(t.len() - length).contains(k));
        }
        reveal(out_row);
        assert(emit_upto(s, t.len() as int) == out_row(a@, b@, i as int));
    }
}

/// One step of the emission walk extends the output arrays by the walked
/// column's entry exactly when its sum is not zero.
#[verifier::rlimit(100)]
proof fn lemma_emit_step(
    s: Seq<(usize, u64)>,
    m: int,
    base_ind: Seq<usize>,
    base_dat: Seq<u64>,
    cur_ind: Seq<usize>,
    cur_dat: Seq<u64>,
)
    requires
        1 <= m <= touch_order(s).len(),
        ({
            let k = touch_order(s)[touch_order(s).len() - m];
            if !is_zero_bits(accum(s, k)) {
                cur_ind == (base_ind + emit_upto(s, m - 1).map_values(|pr: (usize, u64)| pr.0)).push(k)
                && cur_dat == (base_dat + emit_upto(s, m - 1).map_values(|pr: (usize, u64)| pr.1)).push(accum(s, k))
            } else {
                cur_ind == base_ind + emit_upto(s, m - 1).map_values(|pr: (usize, u64)| pr.0)
                && cur_dat == base_dat + emit_upto(s, m - 1).map_values(|pr: (usize, u64)| pr.1)
            }
        }),
    ensures
        cur_ind == base_ind + emit_upto(s, m).map_values(|pr: (usize, u64)| pr.0),
        cur_dat == base_dat + emit_upto(s, m).map_values(|pr: (usize, u64)| pr.1),
{
    reveal_with_fuel(emit_upto, 2);
    let k = touch_order(s)[touch_order(s).len() - m];
    if !is_zero_bits(accum(s, k)) {
        assert(emit_upto(s, m) == emit_upto(s, m - 1) + seq![(k, accum(s, k))]);
        assert(emit_upto(s, m).map_values(|pr: (usize, u64)| pr.0)
            =~= emit_upto(s, m - 1).map_values(|pr: (usize, u64)| pr.0) + seq![k]);
        assert(emit_upto(s, m).map_values(|pr: (usize, u64)| pr.1)
            =~= emit_upto(s, m - 1).map_values(|pr: (usize, u64)| pr.1) + seq![accum(s, k)]);
        assert(cur_ind =~= base_ind + emit_upto(s, m).map_values(|pr: (usize, u64)| pr.0));
        assert(cur_dat =~= base_dat + emit_upto(s, m).map_values(|pr: (usize, u64)| pr.1));
    } else {
        assert(emit_upto(s, m) =~= emit_upto(s, m - 1));
    }
}

/// The output arrays assembled row by row from the emission walks form a
/// well-formed matrix whose rows are the product's rows.
#[verifier::rlimit(100)]
#[verifier::spinoff_prover]
proof fn lemma_assemble(a: CsrView, b: CsrView, cv: CsrView)
    requires
        a.wf(),
        b.wf(),
        a.ncols == b.nrows,
        cv.nrows == a.nrows,
        cv.ncols == b.ncols,
        cv.indptr.len() == cv.nrows + 1,
        cv.indptr[0] == 0,
        cv.indptr[cv.nrows as int] == cv.indices.len(),
        cv.indices.len() == cv.data.len(),
        forall|p: int| 0 <= p < cv.indices.len() ==> (#[trigger] cv.indices[p]) < cv.ncols,
        forall|r: int| 0 <= r < cv.nrows ==>
            (#[trigger] cv.indptr[r + 1]) as int - cv.indptr[r] as int == out_row(a, b, r).len(),
        forall|r: int, p: int| 0 <= r < cv.nrows && 0 <= p < out_row(a, b, r).len() ==>
            cv.indices[cv.indptr[r] + p] == (#[trigger] out_row(a, b, r)[p]).0
            && cv.data[cv.indptr[r] + p] == out_row(a, b, r)[p].1,
    ensures
        cv.wf(),
        forall|i: int| 0 <= i < cv.nrows ==> #[trigger] cv.row_entries(i) == out_row(a, b, i),
{
    assert forall|r: int| 0 <= r < cv.nrows implies #[trigger] cv.indptr[r] <= cv.indptr[r + 1] by {
        assert(cv.indptr[r + 1] as int - cv.indptr[r] as int == out_row(a, b, r).len());
    }
    assert forall|r: int| 0 <= r < cv.nrows implies cv.row_unique(r) by {
        reveal(out_row);
        let s = stream(a, b, r);
        lemma_emit_shape(s, touch_order(s).len() as int);
        assert forall|p: int, q: int|
            #![trigger cv.indices[p], cv.indices[q]]
            cv.row_start(r) <= p < q < cv.row_end(r) implies cv.indices[p] != cv.indices[q] by {
            let st = cv.row_start(r);
            assert(cv.indices[p] == out_row(a, b, r)[p - st].0);
            assert(cv.indices[q] == out_row(a, b, r)[q - st].0);
        }
    }
    assert(cv.wf());
    assert forall|i: int| 0 <= i < cv.nrows implies #[trigger] cv.row_entries(i) == out_row(a, b, i) by {
        assert forall|p: int| 0 <= p < out_row(a, b, i).len() implies
            cv.row_entries(i)[p] == out_row(a, b, i)[p] by {
            assert(cv.indices[cv.row_start(i) + p] == (out_row(a, b, i)[p]).0);
            assert(cv.data[cv.row_start(i) + p] == (out_row(a, b, i)[p]).1);
        }
        assert(cv.row_entries(i) =~= out_row(a, b, i));
    }
}

/// Multiply two CSR matrices: `a` of size `nrow` by `ncommon` and `b` of size
/// `ncommon` by `ncol` give a fresh `nrow` by `ncol` product. Each output row
/// holds the touched columns in reverse touch order with their accumulated
/// binary64 sums; a sum that is exactly zero is dropped. The one failure is
/// the dry-run bound on the entry count overflowing `usize`.
#[verifier::loop_isolation(false)]
#[verifier::rlimit(100)]
#[verifier::spinoff_prover]
pub fn matmat(a: &CSR, b: &CSR) -> (r: Result<CSR, MatMulError>)
    requires
        a@.wf(),
        b@.wf(),
        a@.ncols == b@.nrows,
        a@.nrows < usize::MAX,
        b@.ncols + 2 <= usize::MAX,
    ensures
        match r {
            Ok(c) => {
                &&& c@.wf()
                &&& c@.nrows == a@.nrows
                &&& c@.ncols == b@.ncols
                &&& nnz_estimate(a@, b@) <= usize::MAX
                &&& forall|i: int| 0 <= i < a@.nrows ==> c@.row_entries(i) == out_row(a@, b@, i)
            },
            Err(e) => e == MatMulError::NnzTooLarge && nnz_estimate(a@, b@) > usize::MAX,
        },
{
    let nrow = a.nrows();
    let ncol = b.ncols();

    let max_nnz = match matmat_maxnnz(nrow, ncol, a, b) {
        Ok(n) => n,
        Err(e) => {
            return Err(e);
        },
    };

    let mut next: Vec<usize> = Vec::new();
    let mut sums: Vec<u64> = Vec::new();
    let mut z: usize = 0;
    while z < ncol
        invariant
            z <= ncol,
            next@.len() == z,
            sums@.len() == z,
            forall|k: int| 0 <= k < z ==> next@[k] == ABSENT,
            forall|k: int| 0 <= k < z ==> sums@[k] == POS_ZERO,
        decreases ncol - z,
    {
        next.push(ABSENT);
        sums.push(POS_ZERO);
        z = z + 1;
    }

    let mut indptr: Vec<usize> = Vec::with_capacity(nrow + 1);
    let mut indices: Vec<usize> = Vec::with_capacity(max_nnz);
    let mut data: Vec<u64> = Vec::with_capacity(max_nnz);

    indptr.push(0);

    let mut i: usize = 0;
    while i < nrow
        invariant
            i <= nrow,
            next@.len() == ncol,
            sums@.len() == ncol,
            forall|k: int| 0 <= k < ncol ==> next@[k] == ABSENT,
            forall|k: int| 0 <= k < ncol ==> sums@[k] == POS_ZERO,
            indices@.len() == data@.len(),
            indptr@.len() == i + 1,
            indptr@[0] == 0,
            indptr@[i as int] == indices@.len(),
            forall|p: int| 0 <= p < indices@.len() ==> (#[trigger] indices@[p]) < ncol,
            forall|r: int| 0 <= r < i ==> (#[trigger] indptr@[r]) <= indptr@[r + 1],
            forall|r: int| 0 <= r < i ==>
                (#[trigger] indptr@[r + 1]) as int - indptr@[r] as int == out_row(a@, b@, r).len(),
            forall|r: int, p: int| 0 <= r < i && 0 <= p < out_row(a@, b@, r).len() ==>
                indices@[indptr@[r] + p] == (#[trigger] out_row(a@, b@, r)[p]).0
                && data@[indptr@[r] + p] == out_row(a@, b@, r)[p].1,
        decreases nrow - i,
    {
        let ghost base_ind = indices@;
        let ghost base_dat = data@;
        accumulate_row(a, b, i, ncol, &mut sums, &mut next, &mut indices, &mut data);
        let new_len = indices.len();
        indptr.push(new_len);
        i = i + 1;

        proof {
            let r = i - 1;
            let orow = out_row(a@, b@, r);
            assert(indices@ == base_ind + orow.map_values(|pr: (usize, u64)| pr.0));
            assert(indptr@[r + 1] as int - indptr@[r] as int == orow.len());
            assert forall|rr: int, p: int| 0 <= rr < i && 0 <= p < out_row(a@, b@, rr).len() implies
                indices@[indptr@[rr] + p] == (#[trigger] out_row(a@, b@, rr)[p]).0
                && data@[indptr@[rr] + p] == out_row(a@, b@, rr)[p].1 by {
                if rr == r {
                    assert(indptr@[rr] == base_ind.len());
                    assert(indices@[indptr@[rr] + p] == orow.map_values(|pr: (usize, u64)| pr.0)[p]);
                    assert(data@[indptr@[rr] + p] == orow.map_values(|pr: (usize, u64)| pr.1)[p]);
                } else {
                    lemma_ptr_mono(indptr@, rr + 1, r, i as int);
                    assert(indptr@[rr] + p < base_ind.len());
                    assert(indices@[indptr@[rr] + p] == base_ind[indptr@[rr] + p]);
                    assert(data@[indptr@[rr] + p] == base_dat[indptr@[rr] + p]);
                }
            }
        }
    }

    let ghost cv = CsrView {
        indices: indices@,
        indptr: indptr@,
        data: data@,
        nrows: nrow,
        ncols: ncol,
    };
    proof {
        lemma_assemble(a@, b@, cv);
    }
    let c = CSR::from_parts(indices, indptr, data, nrow, ncol);
    Ok(c)
}

/// A row's entries with the exactly-zero values dropped, order kept.
pub open spec fn drop_zeros(s: Seq<(usize, u64)>) -> Seq<(usize, u64)> {
    s.filter(|pr: (usize, u64)| !is_zero_bits(pr.1))
}

/// In a stream whose columns are pairwise distinct, the touch order is the
/// column sequence itself, and each column accumulates exactly one addition
/// of its own term onto +0.0.
#[verifier::rlimit(100)]
proof fn lemma_single_touch(s: Seq<(usize, u64)>)
    requires
        forall|p: int, q: int| 0 <= p < q < s.len() ==> (#[trigger] s[p]).0 != (#[trigger] s[q]).0,
    ensures
        touch_order(s) == s.map_values(|pr: (usize, u64)| pr.0),
        forall|p: int| 0 <= p < s.len() ==> accum(s, (#[trigger] s[p]).0) == add_bits(POS_ZERO, s[p].1),
    decreases s.len(),
{
    reveal_with_fuel(touch_order, 2);
    reveal_with_fuel(accum, 2);
    if s.len() == 0 {
        assert(touch_order(s) =~= s.map_values(|pr: (usize, u64)| pr.0));
    } else {
        let s0 = s.drop_last();
        let last = s.last();
        lemma_single_touch(s0);
        let t0 = touch_order(s0);
        assert(!t0.contains(last.0)) by {
            if t0.contains(last.0) {
                let idx = choose|idx: int| 0 <= idx < t0.len() && t0[idx] == last.0;
                assert(s0.map_values(|pr: (usize, u64)| pr.0)[idx] == s0[idx].0);
                assert(s[idx].0 == s[s.len() - 1].0);
            }
        }
        assert(touch_order(s) == t0.push(last.0));
        assert(touch_order(s) =~= s.map_values(|pr: (usize, u64)| pr.0));
        lemma_accum_untouched(s0, last.0);
        assert(accum(s, last.0) == add_bits(POS_ZERO, last.1));
        assert forall|p: int| 0 <= p < s.len() implies
            accum(s, (#[trigger] s[p]).0) == add_bits(POS_ZERO, s[p].1) by {
            if p < s.len() - 1 {
                assert(s[p].0 != last.0);
                assert(accum(s, s[p].0) == accum(s0, s0[p].0));
            }
        }
    }
}

/// In a stream whose columns are pairwise distinct and whose terms are not
/// NaN, the emission walk produces exactly the stream reversed with the
/// zero-valued terms dropped.
#[verifier::rlimit(100)]
proof fn lemma_emit_is_filtered(s: Seq<(usize, u64)>, mm: int)
    requires
        0 <= mm <= s.len(),
        touch_order(s) == s.map_values(|pr: (usize, u64)| pr.0),
        forall|p: int| 0 <= p < s.len() ==> !is_nan_bits((#[trigger] s[p]).1),
        forall|p: int| 0 <= p < s.len() ==> accum(s, (#[trigger] s[p]).0) == add_bits(POS_ZERO, s[p].1),
    ensures
        emit_upto(s, mm) == drop_zeros(s.reverse().take(mm)),
    decreases mm,
{
    reveal(Seq::filter);
    reveal_with_fuel(emit_upto, 2);
    let rev = s.reverse();
    if mm == 0 {
        assert(rev.take(0) =~= Seq::<(usize, u64)>::empty());
        assert(emit_upto(s, 0) =~= drop_zeros(rev.take(0)));
    } else {
        lemma_emit_is_filtered(s, mm - 1);
        let t = touch_order(s);
        assert(t.len() == s.len());
        let k = t[t.len() - mm];
        let e = s[s.len() - mm];
        assert(k == e.0) by {
            assert(s.map_values(|pr: (usize, u64)| pr.0)[s.len() - mm] == e.0);
        }
        assert(rev[mm - 1] == e);
        assert(rev.take(mm).drop_last() =~= rev.take(mm - 1));
        assert(rev.take(mm).last() == e);
        assert(accum(s, k) == add_bits(POS_ZERO, e.1));
        assert(!is_nan_bits(e.1));
        if is_zero_bits(e.1) {
            assert(is_zero_bits(accum(s, k)));
            assert(emit_upto(s, mm) =~= emit_upto(s, mm - 1));
            assert(drop_zeros(rev.take(mm)) == drop_zeros(rev.take(mm - 1)));
        } else {
            assert(accum(s, k) == e.1);
            assert(emit_upto(s, mm) =~= emit_upto(s, mm - 1).push(e));
            assert(drop_zeros(rev.take(mm)) == drop_zeros(rev.take(mm - 1)).push(e));
        }
    }
}

/// The identity law: multiplying on the left by the identity reproduces the
/// matrix row by row. Each product row is the original row reversed (the
/// engine emits in reverse touch order), with the entries whose stored value
/// is exactly zero dropped by the engine's zero filter. Stated for matrices
/// without NaN entries, whose bit patterns the arithmetic may rewrite.
pub proof fn lemma_identity_matmul(idm: CsrView, m: CsrView)
    requires
        m.wf(),
        idm.nrows == m.nrows,
        idm.ncols == m.nrows,
        idm.indptr.len() == m.nrows + 1,
        forall|x: int| 0 <= x <= m.nrows ==> idm.indptr[x] == x,
        idm.indices.len() == m.nrows,
        forall|x: int| 0 <= x < m.nrows ==> idm.indices[x] == x,
        idm.data.len() == m.nrows,
        forall|x: int| 0 <= x < m.nrows ==> idm.data[x] == ONE,
        forall|p: int| 0 <= p < m.data.len() ==> !is_nan_bits(#[trigger] m.data[p]),
    ensures
        forall|i: int| 0 <= i < m.nrows ==> #[trigger] out_row(idm, m, i)
            == drop_zeros(m.row_entries(i).reverse()),
{
    assert forall|i: int| 0 <= i < m.nrows implies #[trigger] out_row(idm, m, i)
        == drop_zeros(m.row_entries(i).reverse()) by {
        lemma_identity_row(idm, m, i);
    }
}

/// One row of the identity law.
#[verifier::rlimit(100)]
proof fn lemma_identity_row(idm: CsrView, m: CsrView, i: int)
    requires
        m.wf(),
        idm.nrows == m.nrows,
        idm.ncols == m.nrows,
        idm.indptr.len() == m.nrows + 1,
        forall|x: int| 0 <= x <= m.nrows ==> idm.indptr[x] == x,
        idm.indices.len() == m.nrows,
        forall|x: int| 0 <= x < m.nrows ==> idm.indices[x] == x,
        idm.data.len() == m.nrows,
        forall|x: int| 0 <= x < m.nrows ==> idm.data[x] == ONE,
        forall|p: int| 0 <= p < m.data.len() ==> !is_nan_bits(#[trigger] m.data[p]),
        0 <= i < m.nrows,
    ensures
        out_row(idm, m, i) == drop_zeros(m.row_entries(i).reverse()),
{
    lemma_row_in_bounds(m, i);
    reveal(out_row);
    reveal_with_fuel(stream_upto, 2);
    let s = stream(idm, m, i);
    let row = m.row_entries(i);
    assert(idm.row_start(i) == i && idm.row_end(i) == i + 1);
    assert(stream_upto(idm, m, i, i) =~= Seq::<(usize, u64)>::empty());
    assert(s == Seq::<(usize, u64)>::empty() + b_row_pairs(idm, m, i));
    assert(s =~= row) by {
        assert(idm.indices[i] == i);
        assert(idm.data[i] == ONE);
        assert forall|p: int| 0 <= p < row.len() implies s[p] == row[p] by {
            assert(!is_nan_bits(m.data[m.row_start(i) + p]));
            assert(mul_bits(ONE, m.data[m.row_start(i) + p]) == m.data[m.row_start(i) + p]);
        }
    }
    assert forall|p: int, q: int| 0 <= p < q < s.len() implies
        (#[trigger] s[p]).0 != (#[trigger] s[q]).0 by {
        assert(m.row_unique(i));
        assert(m.indices[m.row_start(i) + p] != m.indices[m.row_start(i) + q]);
    }
    lemma_single_touch(s);
    assert forall|p: int| 0 <= p < s.len() implies !is_nan_bits((#[trigger] s[p]).1) by {
        assert(s[p].1 == m.data[m.row_start(i) + p]);
    }
    lemma_emit_is_filtered(s, s.len() as int);
    assert(touch_order(s).len() == s.len());
    assert(s.reverse().take(s.len() as int) =~= s.reverse());
    assert(out_row(idm, m, i) == drop_zeros(row.reverse()));
}

/// Later prefixes of the row-count sum never shrink.
proof fn lemma_est_mono(a: CsrView, b: CsrView, i1: int, i2: int)
    requires
        0 <= i1 <= i2,
    ensures
        est_upto(a, b, i1) <= est_upto(a, b, i2),
    decreases i2 - i1,
{
    if i1 < i2 {
        lemma_est_mono(a, b, i1, i2 - 1);
    }
}

} // verus!
