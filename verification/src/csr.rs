//! The CSR container: three parallel arrays under the usual row-pointer
//! invariants, built incrementally by upserting single entries.

use vstd::prelude::*;
use vstd::pervasive::VecAdditionalExecFns;

use crate::scalar::ONE;

verus! {

/// A sparse matrix in compressed sparse row form. Element values are binary64
/// bit patterns (see the `scalar` module).
pub struct CSR {
    indices: Vec<usize>,
    indptr: Vec<usize>,
    data: Vec<u64>,
    nrows: usize,
    ncols: usize,
}

/// The mathematical content of a `CSR`: the three arrays as sequences, and
/// the fixed dimensions.
#[verifier::ext_equal]
pub struct CsrView {
    pub indices: Seq<usize>,
    pub indptr: Seq<usize>,
    pub data: Seq<u64>,
    pub nrows: usize,
    pub ncols: usize,
}

impl View for CSR {
    type V = CsrView;

    closed spec fn view(&self) -> CsrView {
        CsrView {
            indices: self.indices@,
            indptr: self.indptr@,
            data: self.data@,
            nrows: self.nrows,
            ncols: self.ncols,
        }
    }
}

impl CsrView {
    /// Offset of row `r`'s first entry.
    pub open spec fn row_start(self, r: int) -> int {
        self.indptr[r] as int
    }

    /// Offset one past row `r`'s last entry.
    pub open spec fn row_end(self, r: int) -> int {
        self.indptr[r + 1] as int
    }

    /// Number of stored entries of row `r`.
    pub open spec fn row_len(self, r: int) -> int {
        self.row_end(r) - self.row_start(r)
    }

    /// The stored entries of row `r`, as (column, value) pairs in storage
    /// order.
    pub open spec fn row_entries(self, r: int) -> Seq<(usize, u64)> {
        Seq::new(self.row_len(r) as nat, |p: int| (self.indices[self.row_start(r) + p], self.data[self.row_start(r) + p]))
    }

    /// Row `r` holds an entry for column `c`.
    pub open spec fn row_has(self, r: int, c: usize) -> bool {
        exists|p: int| self.row_start(r) <= p < self.row_end(r) && self.indices[p] == c
    }

    /// The offset of row `r`'s entry for column `c` (meaningful only when
    /// `row_has(r, c)`; unique by within-row uniqueness).
    pub open spec fn row_pos(self, r: int, c: usize) -> int {
        choose|p: int| self.row_start(r) <= p < self.row_end(r) && self.indices[p] == c
    }

    /// No two entries of row `r` share a column.
    pub open spec fn row_unique(self, r: int) -> bool {
        forall|p: int, q: int|
            #![trigger self.indices[p], self.indices[q]]
            self.row_start(r) <= p < q < self.row_end(r) ==> self.indices[p] != self.indices[q]
    }

    /// The CSR invariants: array lengths agree, the row pointers start at
    /// zero, close at the entry count and never decrease, every stored column
    /// index is in range, and no row stores a column twice.
    pub open spec fn wf(self) -> bool {
        &&& self.indptr.len() == self.nrows + 1
        &&& self.indptr[0] == 0
        &&& self.indptr[self.nrows as int] == self.indices.len()
        &&& self.data.len() == self.indices.len()
        &&& forall|r: int| 0 <= r < self.nrows ==> #[trigger] self.indptr[r] <= self.indptr[r + 1]
        &&& forall|p: int| 0 <= p < self.indices.len() ==> (#[trigger] self.indices[p]) < self.ncols
        &&& forall|r: int| 0 <= r < self.nrows ==> #[trigger] self.row_unique(r)
    }

    /// The value stored at cell `(r, c)`, or +0.0 bits where no entry is
    /// stored: the matrix each view denotes, cell by cell.
    pub open spec fn cell(self, r: int, c: usize) -> u64 {
        if self.row_has(r, c) {
            self.data[self.row_pos(r, c)]
        } else {
            crate::scalar::POS_ZERO
        }
    }
}

/// Row pointers never decrease between any two rows of a well-formed view.
pub proof fn lemma_indptr_mono(m: CsrView, r1: int, r2: int)
    requires
        m.wf(),
        0 <= r1 <= r2 <= m.nrows,
    ensures
        m.indptr[r1] <= m.indptr[r2],
    decreases r2 - r1,
{
    if r1 < r2 {
        lemma_indptr_mono(m, r1, r2 - 1);
        assert(m.indptr[r2 - 1] <= m.indptr[r2]);
    }
}

/// Every row's range lies inside the entry arrays of a well-formed view.
pub proof fn lemma_row_in_bounds(m: CsrView, r: int)
    requires
        m.wf(),
        0 <= r < m.nrows,
    ensures
        0 <= m.row_start(r) <= m.row_end(r) <= m.indices.len(),
{
    lemma_indptr_mono(m, 0, r);
    lemma_indptr_mono(m, r + 1, m.nrows as int);
}

/// The upsert, stated over views: overwrite in place where the column is
/// already stored in the row, else insert at the row's end and shift the
/// later row pointers up by one.
pub open spec fn spec_insert(m: CsrView, row: int, col: usize, value: u64) -> CsrView {
    if m.row_has(row, col) {
        CsrView { data: m.data.update(m.row_pos(row, col), value), ..m }
    } else {
        CsrView {
            indices: m.indices.insert(m.row_end(row), col),
            data: m.data.insert(m.row_end(row), value),
            indptr: Seq::new(m.indptr.len(), |r: int| if r <= row { m.indptr[r] } else { (m.indptr[r] + 1) as usize }),
            ..m
        }
    }
}

impl CSR {
    /// A matrix of the given dimensions with no stored entries.
    #[verifier::loop_isolation(false)]
    pub fn new(nrows: usize, ncols: usize) -> (r: CSR)
        requires
            nrows < usize::MAX,
        ensures
            r@.wf(),
            r@.nrows == nrows,
            r@.ncols == ncols,
            r@.indices.len() == 0,
            r@.data.len() == 0,
            r@.indptr.len() == nrows + 1,
            forall|i: int| 0 <= i <= nrows ==> r@.indptr[i] == 0,
    {
        let mut indptr: Vec<usize> = Vec::new();
        let mut i: usize = 0;
        while i < nrows + 1
            invariant
                i <= nrows + 1,
                indptr@.len() == i,
                forall|j: int| 0 <= j < i ==> indptr@[j] == 0,
            decreases nrows + 1 - i,
        {
            indptr.push(0);
            i = i + 1;
        }
        CSR { indices: Vec::new(), indptr, data: Vec::new(), nrows, ncols }
    }

    /// The `n` by `n` identity: one entry per row, at the diagonal, of value
    /// 1.0.
    #[verifier::loop_isolation(false)]
    pub fn identity(n: usize) -> (r: CSR)
        requires
            n < usize::MAX,
        ensures
            r@.wf(),
            r@.nrows == n,
            r@.ncols == n,
            r@.indptr.len() == n + 1,
            forall|i: int| 0 <= i <= n ==> r@.indptr[i] == i,
            r@.indices.len() == n,
            forall|i: int| 0 <= i < n ==> r@.indices[i] == i,
            r@.data.len() == n,
            forall|i: int| 0 <= i < n ==> r@.data[i] == ONE,
    {
        let mut indptr: Vec<usize> = Vec::new();
        let mut indices: Vec<usize> = Vec::new();
        let mut data: Vec<u64> = Vec::new();
        let mut i: usize = 0;
        while i < n
            invariant
                i <= n,
                indptr@.len() == i,
                forall|j: int| 0 <= j < i ==> indptr@[j] == j,
                indices@.len() == i,
                forall|j: int| 0 <= j < i ==> indices@[j] == j,
                data@.len() == i,
                forall|j: int| 0 <= j < i ==> data@[j] == ONE,
            decreases n - i,
        {
            indptr.push(i);
            indices.push(i);
            data.push(ONE);
            i = i + 1;
        }
        indptr.push(n);
        let r = CSR { indices, indptr, data, nrows: n, ncols: n };
        assert forall|row: int| 0 <= row < n implies r@.row_unique(row) by {
            assert(r@.row_start(row) == row);
            assert(r@.row_end(row) == row + 1);
        }
        r
    }

    /// Number of rows.
    pub fn nrows(&self) -> (r: usize)
        ensures
            r == self@.nrows,
    {
        self.nrows
    }

    /// Number of columns.
    pub fn ncols(&self) -> (r: usize)
        ensures
            r == self@.ncols,
    {
        self.ncols
    }

    /// A copy of the stored column indices.
    pub fn indices(&self) -> (r: Vec<usize>)
        ensures
            r@ == self@.indices,
    {
        clone_usize_vec(&self.indices)
    }

    /// A copy of the row pointer array.
    pub fn indptr(&self) -> (r: Vec<usize>)
        ensures
            r@ == self@.indptr,
    {
        clone_usize_vec(&self.indptr)
    }

    /// A copy of the stored values, as binary64 bit patterns.
    #[verifier::loop_isolation(false)]
    pub fn data(&self) -> (r: Vec<u64>)
        ensures
            r@ == self@.data,
    {
        let mut r: Vec<u64> = Vec::new();
        let mut i: usize = 0;
        while i < self.data.len()
            invariant
                i <= self.data.len(),
                r@ == self.data@.subrange(0, i as int),
            decreases self.data.len() - i,
        {
            r.push(self.data[i]);
            i = i + 1;
            proof {
                assert(r@ =~= self.data@.subrange(0, i as int));
            }
        }
        proof {
            assert(r@ =~= self.data@);
        }
        r
    }

    /// The row pointer at position `r`.
    pub fn row_ptr(&self, r: usize) -> (p: usize)
        requires
            r < self@.indptr.len(),
        ensures
            p == self@.indptr[r as int],
    {
        self.indptr[r]
    }

    /// The stored column index at offset `p`.
    pub fn index_at(&self, p: usize) -> (c: usize)
        requires
            p < self@.indices.len(),
        ensures
            c == self@.indices[p as int],
    {
        self.indices[p]
    }

    /// The stored value at offset `p`, as a binary64 bit pattern.
    pub fn data_at(&self, p: usize) -> (v: u64)
        requires
            p < self@.data.len(),
        ensures
            v == self@.data[p as int],
    {
        self.data[p]
    }

    /// Assemble a matrix from already well-formed parts.
    pub(crate) fn from_parts(indices: Vec<usize>, indptr: Vec<usize>, data: Vec<u64>, nrows: usize, ncols: usize) -> (r: CSR)
        requires
            (CsrView { indices: indices@, indptr: indptr@, data: data@, nrows, ncols }).wf(),
        ensures
            r@ == (CsrView { indices: indices@, indptr: indptr@, data: data@, nrows, ncols }),
            r@.wf(),
    {
        CSR { indices, indptr, data, nrows, ncols }
    }

    /// The dense rendering of the matrix, row-major, as binary64 bit
    /// patterns: the compute half of the debug renderer. One read cursor runs
    /// over the stored entries; a cell shows the cursor's entry when the
    /// cursor sits inside the row's range at a matching column, else +0.0.
    /// Correct as a dense view only where each row stores its columns in
    /// ascending order.
    #[verifier::loop_isolation(false)]
    #[verifier::rlimit(100)]
    pub fn to_dense(&self) -> (r: Vec<u64>)
        requires
            self@.wf(),
            self@.nrows * self@.ncols <= usize::MAX,
        ensures
            r@ == render(self@),
            r@.len() == self@.nrows * self@.ncols,
    {
        let mut out: Vec<u64> = Vec::new();
        let mut cur: usize = 0;
        let mut row: usize = 0;
        proof {
            reveal(render_from);
        }
        while row < self.nrows
            invariant
                row <= self@.nrows,
                cur <= self@.indices.len(),
                out@.len() == row * self@.ncols,
                render(self@) == out@ + render_from(self@, row as int, 0, cur as int),
            decreases self@.nrows - row,
        {
            let mut col: usize = 0;
            proof {
                lemma_row_in_bounds(self@, row as int);
                vstd::arithmetic::mul::lemma_mul_inequality(row as int + 1, self@.nrows as int, self@.ncols as int);
            }
            while col < self.ncols
                invariant
                    row < self@.nrows,
                    col <= self@.ncols,
                    cur <= self@.indices.len(),
                    self@.row_end(row as int) <= self@.indices.len(),
                    out@.len() == row * self@.ncols + col,
                    (row + 1) * self@.ncols <= usize::MAX,
                    render(self@) == out@ + render_from(self@, row as int, col as int, cur as int),
                decreases self@.ncols - col,
            {
                proof {
                    reveal(render_from);
                }
                if cur < self.indptr[row + 1] && self.index_at(cur) == col {
                    out.push(self.data_at(cur));
                    cur = cur + 1;
                } else {
                    out.push(crate::scalar::POS_ZERO);
                }
                col = col + 1;
                proof {
                    assert(out@ + render_from(self@, row as int, col as int, cur as int)
                        =~= render(self@));
                }
            }
            row = row + 1;
            proof {
                reveal(render_from);
                assert(render_from(self@, row - 1, self@.ncols as int, cur as int)
                    == render_from(self@, row as int, 0, cur as int));
                vstd::arithmetic::mul::lemma_mul_is_distributive_add_other_way(self@.ncols as int, row as int - 1, 1);
            }
        }
        proof {
            reveal(render_from);
            assert(render_from(self@, row as int, 0, cur as int) =~= Seq::<u64>::empty());
            assert(out@ =~= render(self@));
        }
        out
    }

    /// Upsert the entry at `(row, col)`: overwrite the stored value where one
    /// exists, else append the entry to the row and shift the following rows'
    /// pointers.
    #[verifier::loop_isolation(false)]
    #[verifier::rlimit(100)]
    pub fn insert(&mut self, row: usize, col: usize, value: u64)
        requires
            old(self)@.wf(),
            row < old(self)@.nrows,
            col < old(self)@.ncols,
            old(self)@.indices.len() < usize::MAX,
        ensures
            final(self)@.wf(),
            final(self)@ == spec_insert(old(self)@, row as int, col, value),
    {
        proof {
            lemma_row_in_bounds(old(self)@, row as int);
        }
        let row_start = self.indptr[row];
        let row_end = self.indptr[row + 1];

        // Overwrite in place if the column is already stored in this row.
        let mut i = row_start;
        while i < row_end
            invariant
                self == old(self),
                row_start <= i <= row_end,
                row_start == old(self)@.row_start(row as int),
                row_end == old(self)@.row_end(row as int),
                row_end <= old(self)@.indices.len(),
                forall|p: int| row_start <= p < i ==> old(self)@.indices[p] != col,
            decreases row_end - i,
        {
            if self.indices[i] == col {
                self.data.set(i, value);
                proof {
                    let m = old(self)@;
                    let ii = i as int;
                    assert(m.row_start(row as int) <= ii < m.row_end(row as int) && m.indices[ii] == col);
                    assert(m.row_has(row as int, col));
                    let p = m.row_pos(row as int, col);
                    assert(m.row_start(row as int) <= p < m.row_end(row as int) && m.indices[p] == col);
                    assert(p == ii) by {
                        assert(m.row_unique(row as int));
                        if p < ii {
                            assert(m.indices[p] != m.indices[ii]);
                        } else if ii < p {
                            assert(m.indices[ii] != m.indices[p]);
                        }
                    }
                    assert(self@ =~= spec_insert(m, row as int, col, value));
                    lemma_insert_wf(m, row as int, col, value);
                }
                return;
            }
            i = i + 1;
        }

        proof {
            assert(!old(self)@.row_has(row as int, col));
        }

        // Append at the row's end, shifting all later entries right.
        self.indices.insert(row_end, col);
        self.data.insert(row_end, value);

        // Bump the row pointers of every following row.
        let ghost mid = self@;
        let nrows = self.nrows;
        let mut r = row + 1;
        while r < nrows
            invariant
                row + 1 <= r <= nrows,
                self.indices@ == mid.indices,
                self.data@ == mid.data,
                self.nrows == mid.nrows == nrows,
                self.ncols == mid.ncols,
                self.indptr@.len() == mid.indptr.len() == nrows + 1,
                forall|j: int| 0 <= j < r ==> self.indptr@[j] == (if j <= row { mid.indptr[j] } else { (mid.indptr[j] + 1) as usize }),
                forall|j: int| r <= j <= nrows ==> self.indptr@[j] == mid.indptr[j],
                forall|j: int| 0 <= j <= nrows ==> mid.indptr[j] == old(self)@.indptr[j],
                mid.indptr == old(self)@.indptr,
            decreases nrows - r,
        {
            proof {
                lemma_indptr_mono(old(self)@, r as int, nrows as int);
                assert(old(self)@.indptr[r as int] <= old(self)@.indices.len());
            }
            let v = self.indptr[r];
            self.indptr.set(r, v + 1);
            r = r + 1;
        }
        let v = self.indptr[nrows];
        self.indptr.set(nrows, v + 1);

        proof {
            let m = old(self)@;
            let s = spec_insert(m, row as int, col, value);
            assert(!m.row_has(row as int, col));
            assert forall|j: int| 0 <= j < s.indptr.len() implies self.indptr@[j] == s.indptr[j] by {
                if j > row {
                    lemma_indptr_mono(m, j, m.nrows as int);
                }
            }
            assert(self@.indptr =~= s.indptr);
            assert(self@ =~= s);
            lemma_insert_wf(m, row as int, col, value);
        }
    }
}

/// The dense rendering, cell by cell in row-major order, as the streaming
/// renderer produces it: one read cursor runs over the stored entries, and a
/// cell shows the cursor's entry when the cursor sits inside the row's range
/// at a matching column, else +0.0. Faithful to the renderer's caveat: rows
/// whose entries are not stored in ascending column order are shown shifted.
#[verifier::opaque]
pub open spec fn render_from(m: CsrView, row: int, col: int, cur: int) -> Seq<u64>
    decreases m.nrows - row, m.ncols - col,
{
    if row < 0 || m.nrows <= row || col < 0 || m.ncols < col {
        Seq::empty()
    } else if col == m.ncols {
        render_from(m, row + 1, 0, cur)
    } else if cur < m.indptr[row + 1] && m.indices[cur] == col {
        seq![m.data[cur]] + render_from(m, row, col + 1, cur + 1)
    } else {
        seq![crate::scalar::POS_ZERO] + render_from(m, row, col + 1, cur)
    }
}

/// The whole dense rendering of a matrix, row-major.
pub open spec fn render(m: CsrView) -> Seq<u64> {
    render_from(m, 0, 0, 0)
}

/// Inserting one entry into an empty matrix and reading the dense content
/// back yields the value at that cell and +0.0 bits at every other cell.
pub proof fn lemma_insert_then_read(m: CsrView, row: int, col: usize, value: u64)
    requires
        m.wf(),
        m.indices.len() == 0,
        0 <= row < m.nrows,
        col < m.ncols,
    ensures
        spec_insert(m, row, col, value).cell(row, col) == value,
        forall|i: int, c: usize| 0 <= i < m.nrows && c < m.ncols && !(i == row && c == col) ==>
            #[trigger] spec_insert(m, row, col, value).cell(i, c) == crate::scalar::POS_ZERO,
{
    assert forall|r: int| 0 <= r <= m.nrows implies m.indptr[r] == 0 by {
        lemma_indptr_mono(m, 0, r);
        lemma_indptr_mono(m, r, m.nrows as int);
    }
    assert(!m.row_has(row, col));
    let m1 = spec_insert(m, row, col, value);
    m.indices.insert_ensures(0, col);
    m.data.insert_ensures(0, value);
    assert(m1.indices.len() == 1 && m1.indices[0] == col);
    assert(m1.data.len() == 1 && m1.data[0] == value);
    assert forall|r: int| 0 <= r <= m.nrows implies
        m1.indptr[r] == (if r <= row { 0int } else { 1int }) by {
    }
    assert(m1.row_start(row) == 0 && m1.row_end(row) == 1);
    assert(m1.row_has(row, col));
    assert(m1.row_pos(row, col) == 0);
    assert(m1.cell(row, col) == value);
    assert forall|i: int, c: usize| 0 <= i < m.nrows && c < m.ncols && !(i == row && c == col) implies
        #[trigger] m1.cell(i, c) == crate::scalar::POS_ZERO by {
        if i == row {
            assert(!m1.row_has(i, c)) by {
                if m1.row_has(i, c) {
                    let p = choose|p: int| m1.row_start(i) <= p < m1.row_end(i) && m1.indices[p] == c;
                    assert(p == 0 && m1.indices[0] == col);
                }
            }
        } else {
            assert(m1.row_start(i) == m1.row_end(i));
            assert(!m1.row_has(i, c)) by {
                if m1.row_has(i, c) {
                    let p = choose|p: int| m1.row_start(i) <= p < m1.row_end(i) && m1.indices[p] == c;
                }
            }
        }
    }
}

/// Upserting a value twice at one key leaves exactly one stored entry at that
/// key, holding the second value, and the second upsert changes neither the
/// stored columns nor the row pointers nor the entry count.
pub proof fn lemma_upsert_idempotent(m: CsrView, row: int, col: usize, v1: u64, v2: u64)
    requires
        m.wf(),
        0 <= row < m.nrows,
        col < m.ncols,
        m.indices.len() < usize::MAX,
    ensures
        ({
            let m1 = spec_insert(m, row, col, v1);
            let m2 = spec_insert(m1, row, col, v2);
            &&& m1.row_has(row, col)
            &&& m2.indices == m1.indices
            &&& m2.indptr == m1.indptr
            &&& m2.indices.len() == m1.indices.len()
            &&& m2.data.len() == m1.data.len()
            &&& m2.data[m1.row_pos(row, col)] == v2
            &&& forall|p: int| m1.row_start(row) <= p < m1.row_end(row)
                    && (#[trigger] m2.indices[p]) == col <==> p == m1.row_pos(row, col)
        }),
{
    lemma_row_in_bounds(m, row);
    lemma_insert_wf(m, row, col, v1);
    let m1 = spec_insert(m, row, col, v1);
    let e = m.row_end(row);
    if m.row_has(row, col) {
        let p = m.row_pos(row, col);
        assert(m.row_start(row) <= p < m.row_end(row) && m.indices[p] == col);
        assert(m1.indices[p] == col);
        assert(m1.row_has(row, col));
    } else {
        m.indices.insert_ensures(e, col);
        m.data.insert_ensures(e, v1);
        assert(m1.indices[e] == col);
        assert(m1.row_start(row) == m.row_start(row));
        assert(m1.row_end(row) == e + 1);
        assert(m1.row_has(row, col));
    }
    let q = m1.row_pos(row, col);
    assert(m1.row_start(row) <= q < m1.row_end(row) && m1.indices[q] == col);
    let m2 = spec_insert(m1, row, col, v2);
    assert(m2.data == m1.data.update(q, v2));
    assert(m2.data[q] == v2);
    assert forall|p: int| m1.row_start(row) <= p < m1.row_end(row)
        && (#[trigger] m2.indices[p]) == col implies p == q by {
        assert(m1.row_unique(row));
        if p < q {
            assert(m1.indices[p] != m1.indices[q]);
        } else if q < p {
            assert(m1.indices[q] != m1.indices[p]);
        }
    }
}

/// Copy a vector of indices.
#[verifier::loop_isolation(false)]
fn clone_usize_vec(v: &Vec<usize>) -> (r: Vec<usize>)
    ensures
        r@ == v@,
{
    let mut r: Vec<usize> = Vec::new();
    let mut i: usize = 0;
    while i < v.len()
        invariant
            i <= v.len(),
            r@ == v@.subrange(0, i as int),
        decreases v.len() - i,
    {
        r.push(v[i]);
        i = i + 1;
        proof {
            assert(r@ =~= v@.subrange(0, i as int));
        }
    }
    proof {
        assert(r@ =~= v@);
    }
    r
}

/// Upserting into a well-formed view yields a well-formed view.
#[verifier::rlimit(100)]
pub proof fn lemma_insert_wf(m: CsrView, row: int, col: usize, value: u64)
    requires
        m.wf(),
        0 <= row < m.nrows,
        col < m.ncols,
        m.indices.len() < usize::MAX,
    ensures
        spec_insert(m, row, col, value).wf(),
{
    lemma_row_in_bounds(m, row);
    let s = spec_insert(m, row, col, value);
    if m.row_has(row, col) {
        let p = m.row_pos(row, col);
        assert(m.row_start(row) <= p < m.row_end(row) && m.indices[p] == col);
        assert forall|r: int| 0 <= r < s.nrows implies s.row_unique(r) by {
            assert(m.row_unique(r));
        }
    } else {
        let e = m.row_end(row);
        m.indices.insert_ensures(e, col);
        m.data.insert_ensures(e, value);
        assert forall|j: int| 0 <= j <= m.nrows implies m.indptr[j] < usize::MAX by {
            lemma_indptr_mono(m, j, m.nrows as int);
        }
        assert forall|j: int| 0 <= j <= m.nrows implies
            #[trigger] s.indptr[j] == (if j <= row { m.indptr[j] as int } else { m.indptr[j] + 1 }) by {
        }
        assert forall|r: int| 0 <= r < s.nrows implies #[trigger] s.indptr[r] <= s.indptr[r + 1] by {
            assert(m.indptr[r] <= m.indptr[r + 1]);
        }
        assert forall|p: int| 0 <= p < s.indices.len() implies (#[trigger] s.indices[p]) < s.ncols by {
            if p < e {
                assert(s.indices[p] == m.indices[p]);
            } else if p == e {
                assert(s.indices[p] == col);
            } else {
                assert(s.indices[p] == m.indices[p - 1]);
            }
        }
        assert forall|r: int| 0 <= r < s.nrows implies s.row_unique(r) by {
            lemma_insert_row_unique(m, row, col, value, r);
        }
    }
}

/// Appending a fresh column at a row's end keeps every row's columns unique.
proof fn lemma_insert_row_unique(m: CsrView, row: int, col: usize, value: u64, r: int)
    requires
        m.wf(),
        0 <= row < m.nrows,
        col < m.ncols,
        m.indices.len() < usize::MAX,
        !m.row_has(row, col),
        0 <= r < m.nrows,
    ensures
        spec_insert(m, row, col, value).row_unique(r),
{
    if r < row {
        lemma_insert_row_unique_before(m, row, col, value, r);
    } else if r == row {
        lemma_insert_row_unique_at(m, row, col, value);
    } else {
        lemma_insert_row_unique_after(m, row, col, value, r);
    }
}

/// Bound every row pointer by the entry count.
proof fn lemma_indptr_bounded(m: CsrView)
    requires
        m.wf(),
    ensures
        forall|j: int| 0 <= j <= m.nrows ==> #[trigger] m.indptr[j] <= m.indices.len(),
{
    assert forall|j: int| 0 <= j <= m.nrows implies #[trigger] m.indptr[j] <= m.indices.len() by {
        lemma_indptr_mono(m, j, m.nrows as int);
    }
}

/// Rows before the insertion row keep their range and their entries.
#[verifier::rlimit(100)]
proof fn lemma_insert_row_unique_before(m: CsrView, row: int, col: usize, value: u64, r: int)
    requires
        m.wf(),
        0 <= row < m.nrows,
        col < m.ncols,
        m.indices.len() < usize::MAX,
        !m.row_has(row, col),
        0 <= r < row,
    ensures
        spec_insert(m, row, col, value).row_unique(r),
{
    lemma_row_in_bounds(m, row);
    lemma_indptr_bounded(m);
    let s = spec_insert(m, row, col, value);
    let e = m.row_end(row);
    m.indices.insert_ensures(e, col);
    assert(m.row_unique(r));
    lemma_indptr_mono(m, r + 1, row);
    assert(s.row_start(r) == m.row_start(r));
    assert(s.row_end(r) == m.row_end(r));
    assert(m.row_end(r) <= e);
    assert forall|p: int, q: int|
        #![trigger s.indices[p], s.indices[q]]
        s.row_start(r) <= p < q < s.row_end(r) implies s.indices[p] != s.indices[q] by {
        assert(s.indices[p] == m.indices[p]);
        assert(s.indices[q] == m.indices[q]);
    }
}

/// The insertion row gains the one fresh column at its end.
#[verifier::rlimit(100)]
proof fn lemma_insert_row_unique_at(m: CsrView, row: int, col: usize, value: u64)
    requires
        m.wf(),
        0 <= row < m.nrows,
        col < m.ncols,
        m.indices.len() < usize::MAX,
        !m.row_has(row, col),
    ensures
        spec_insert(m, row, col, value).row_unique(row),
{
    lemma_row_in_bounds(m, row);
    lemma_indptr_bounded(m);
    let s = spec_insert(m, row, col, value);
    let e = m.row_end(row);
    m.indices.insert_ensures(e, col);
    assert(m.row_unique(row));
    assert(s.row_start(row) == m.row_start(row));
    assert(s.row_end(row) == m.row_end(row) + 1);
    assert forall|p: int, q: int|
        #![trigger s.indices[p], s.indices[q]]
        s.row_start(row) <= p < q < s.row_end(row) implies s.indices[p] != s.indices[q] by {
        if q < e {
            assert(s.indices[p] == m.indices[p]);
            assert(s.indices[q] == m.indices[q]);
        } else {
            assert(q == e);
            assert(s.indices[q] == col);
            assert(s.indices[p] == m.indices[p]);
            assert(!m.row_has(row, col));
            assert(m.row_start(row) <= p < m.row_end(row));
        }
    }
}

/// Rows after the insertion row shift right as a block.
#[verifier::rlimit(100)]
proof fn lemma_insert_row_unique_after(m: CsrView, row: int, col: usize, value: u64, r: int)
    requires
        m.wf(),
        0 <= row < m.nrows,
        col < m.ncols,
        m.indices.len() < usize::MAX,
        !m.row_has(row, col),
        row < r < m.nrows,
    ensures
        spec_insert(m, row, col, value).row_unique(r),
{
    lemma_row_in_bounds(m, row);
    lemma_indptr_bounded(m);
    let s = spec_insert(m, row, col, value);
    let e = m.row_end(row);
    m.indices.insert_ensures(e, col);
    assert(m.row_unique(r));
    lemma_indptr_mono(m, row + 1, r);
    assert(s.row_start(r) == m.row_start(r) + 1);
    assert(s.row_end(r) == m.row_end(r) + 1);
    assert(e <= m.row_start(r));
    assert forall|p: int, q: int|
        #![trigger s.indices[p], s.indices[q]]
        s.row_start(r) <= p < q < s.row_end(r) implies s.indices[p] != s.indices[q] by {
        assert(s.indices[p] == m.indices[p - 1]);
        assert(s.indices[q] == m.indices[q - 1]);
        assert(m.row_start(r) <= p - 1 < q - 1 < m.row_end(r));
    }
}

} // verus!
