//! Compressed sparse row (CSR) matrices over `u8`, as used for parity-check
//! matrices, with Kronecker product, horizontal concatenation, transpose and
//! identity.

use vstd::prelude::*;
use sprs::{CsMat, TriMat};

verus! {

/// A sparse matrix in compressed sparse row form.
///
/// Row `r` stores its entries at positions `indptr[r] .. indptr[r + 1]` of
/// `indices` (column of each entry) and `data` (value of each entry). Within
/// a row the column indices are strictly increasing.
#[derive(Clone, Debug)]
pub struct CsrMatrix {
    pub rows: usize,
    pub cols: usize,
    pub indptr: Vec<usize>,
    pub indices: Vec<usize>,
    pub data: Vec<u8>,
}

impl CsrMatrix {
    /// Position `p` of `indices`/`data` belongs to row `r`.
    pub open spec fn in_row(&self, r: int, p: int) -> bool {
        &&& 0 <= r < self.rows
        &&& self.indptr@[r] <= p < self.indptr@[r + 1]
    }

    /// Number of stored entries.
    pub open spec fn nnz(&self) -> int {
        self.indices@.len() as int
    }

    /// Well-formedness of the compressed representation.
    pub open spec fn wf(&self) -> bool {
        &&& self.indptr@.len() == self.rows + 1
        &&& self.indptr@[0] == 0
        &&& self.indptr@[self.rows as int] == self.indices@.len()
        &&& self.data@.len() == self.indices@.len()
        &&& forall|i: int, j: int|
            #![trigger self.indptr@[i], self.indptr@[j]]
            0 <= i <= j <= self.rows ==> self.indptr@[i] <= self.indptr@[j]
        &&& forall|p: int| 0 <= p < self.indices@.len() ==> #[trigger] self.indices@[p] < self.cols
        &&& forall|r: int, p: int, q: int|
            #![trigger self.in_row(r, p), self.in_row(r, q)]
            self.in_row(r, p) && self.in_row(r, q) && p < q ==> self.indices@[p]
                < self.indices@[q]
    }

    /// Position `p` holds the entry at row `r`, column `c`.
    pub open spec fn entry_at(&self, r: int, c: int, p: int) -> bool {
        self.in_row(r, p) && self.indices@[p] == c
    }

    /// The matrix stores an entry (possibly an explicit zero) at `(r, c)`.
    pub open spec fn contains(&self, r: int, c: int) -> bool {
        exists|p: int| #[trigger] self.entry_at(r, c, p)
    }

    /// The stored value at `(r, c)` (meaningful when `contains(r, c)`).
    pub open spec fn value(&self, r: int, c: int) -> u8 {
        self.data@[choose|p: int| #[trigger] self.entry_at(r, c, p)]
    }

    /// The matrix stores a nonzero value at `(r, c)`.
    pub open spec fn nonzero(&self, r: int, c: int) -> bool {
        self.contains(r, c) && self.value(r, c) != 0
    }

    /// The matrix stores an odd value at `(r, c)`: the entry is 1 modulo 2.
    pub open spec fn odd(&self, r: int, c: int) -> bool {
        self.contains(r, c) && self.value(r, c) % 2 == 1
    }

    /// The set of columns where row `r` is 1 modulo 2.
    pub open spec fn odd_row_cols(&self, r: int) -> Set<int> {
        Set::new(|c: int| self.odd(r, c))
    }

    /// The set of columns stored in row `r`.
    pub open spec fn row_cols(&self, r: int) -> Set<int> {
        Set::new(|c: int| self.contains(r, c))
    }

    /// The set of rows storing an entry in column `c`.
    pub open spec fn col_rows(&self, c: int) -> Set<int> {
        Set::new(|r: int| self.contains(r, c))
    }

    /// The matrix is the dense matrix `d` (given row by row): it stores
    /// exactly the nonzero entries of `d`, with their values.
    pub open spec fn matches_dense(&self, d: Seq<Seq<u8>>) -> bool {
        &&& self.rows == d.len()
        &&& forall|r: int| 0 <= r < d.len() ==> #[trigger] d[r].len() == self.cols
        &&& forall|r: int, c: int|
            0 <= r < self.rows && 0 <= c < self.cols ==> (#[trigger] self.contains(r, c) <==> d[r][c]
                != 0)
        &&& forall|r: int, c: int| #[trigger] self.contains(r, c) ==> self.value(r, c) == d[r][c]
    }
}

impl CsrMatrix {
    /// The value stored at row `r`, column `c`, if any.
    pub fn get(&self, r: usize, c: usize) -> (res: Option<u8>)
        requires
            self.wf(),
        ensures
            match res {
                Some(v) => self.contains(r as int, c as int) && v == self.value(r as int, c as int),
                None => !self.contains(r as int, c as int),
            },
    {
        if r >= self.rows {
            proof {
                if self.contains(r as int, c as int) {
                    lemma_contains_in_range(self, r as int, c as int);
                }
            }
            return None;
        }
        assert(self.indptr@[r as int] <= self.indptr@[r + 1] <= self.indptr@[self.rows as int]);
        let start = self.indptr[r];
        let end = self.indptr[r + 1];
        let mut p = start;
        while p < end
            invariant
                self.wf(),
                r < self.rows,
                start == self.indptr@[r as int],
                end == self.indptr@[r + 1],
                end <= self.nnz(),
                start <= p <= end,
                forall|q: int| start <= q < p ==> #[trigger] self.indices@[q] != c,
            decreases end - p,
        {
            if self.indices[p] == c {
                proof {
                    assert(self.entry_at(r as int, c as int, p as int));
                    lemma_entry_at(self, r as int, c as int, p as int);
                }
                return Some(self.data[p]);
            }
            p += 1;
        }
        proof {
            if self.contains(r as int, c as int) {
                let q = choose|q: int| #[trigger] self.entry_at(r as int, c as int, q);
                assert(self.indices@[q] == c);
            }
        }
        None
    }
}

/// A stored position determines the entry: its row, its column and its value.
pub proof fn lemma_entry_at(m: &CsrMatrix, r: int, c: int, p: int)
    requires
        m.wf(),
        m.entry_at(r, c, p),
    ensures
        m.contains(r, c),
        m.value(r, c) == m.data@[p],
        forall|q: int| #[trigger] m.entry_at(r, c, q) ==> q == p,
{
    assert forall|q: int| #[trigger] m.entry_at(r, c, q) implies q == p by {
        if q < p {
            assert(m.indices@[q] < m.indices@[p]);
        } else if p < q {
            assert(m.indices@[p] < m.indices@[q]);
        }
    }
    assert(m.contains(r, c));
}

/// Each stored position lies in at most one row.
pub proof fn lemma_row_unique(m: &CsrMatrix, r1: int, r2: int, p: int)
    requires
        m.wf(),
        m.in_row(r1, p),
        m.in_row(r2, p),
    ensures
        r1 == r2,
{
    if r1 < r2 {
        assert(m.indptr@[r1 + 1] <= m.indptr@[r2]);
    } else if r2 < r1 {
        assert(m.indptr@[r2 + 1] <= m.indptr@[r1]);
    }
}

/// Every stored entry lies inside the matrix.
pub proof fn lemma_contains_in_range(m: &CsrMatrix, r: int, c: int)
    requires
        m.wf(),
        m.contains(r, c),
    ensures
        0 <= r < m.rows,
        0 <= c < m.cols,
{
    let p = choose|p: int| #[trigger] m.entry_at(r, c, p);
    assert(m.indptr@[r + 1] <= m.indptr@[m.rows as int]);
    assert(0 <= m.indptr@[r]);
    assert(m.indices@[p] < m.cols);
}

/// The positions of a list of triplets are pairwise distinct.
pub open spec fn distinct_positions(rows: Seq<usize>, cols: Seq<usize>) -> bool {
    forall|k1: int, k2: int|
        #![trigger rows[k1], rows[k2]]
        0 <= k1 < k2 < rows.len() ==> !(rows[k1] == rows[k2] && cols[k1] == cols[k2])
}

/// Assembles a CSR matrix from `(row, col, value)` triplets with
/// `sprs::TriMat::from_triplets` followed by `TriMat::to_csr`.
///
/// Trusted: for triplets at pairwise distinct, in-bounds positions, `to_csr`
/// sorts them by `(row, col)` and stores exactly one entry per triplet with
/// the triplet's value (duplicates, which `to_csr` would sum, are excluded by
/// the precondition).
#[verifier::external_body]
pub(crate) fn csr_from_triplets(
    rows: usize,
    cols: usize,
    row_inds: Vec<usize>,
    col_inds: Vec<usize>,
    vals: Vec<u8>,
) -> (res: CsrMatrix)
    requires
        rows < usize::MAX,
        row_inds@.len() == col_inds@.len(),
        vals@.len() == col_inds@.len(),
        forall|k: int| 0 <= k < row_inds@.len() ==> #[trigger] row_inds@[k] < rows,
        forall|k: int| 0 <= k < col_inds@.len() ==> #[trigger] col_inds@[k] < cols,
        distinct_positions(row_inds@, col_inds@),
    ensures
        res.wf(),
        res.rows == rows,
        res.cols == cols,
        res.nnz() == row_inds@.len(),
        forall|k: int|
            0 <= k < row_inds@.len() ==> res.contains(#[trigger] row_inds@[k] as int, col_inds@[k] as int)
                && res.value(row_inds@[k] as int, col_inds@[k] as int) == vals@[k],
        forall|r: int, c: int|
            #[trigger] res.contains(r, c) ==> exists|k: int|
                0 <= k < row_inds@.len() && row_inds@[k] == r && col_inds@[k] == c,
{
    let tri = TriMat::<u8>::from_triplets((rows, cols), row_inds, col_inds, vals);
    let csr: CsMat<u8> = tri.to_csr();
    let (indptr, indices, data) = csr.into_raw_storage();
    CsrMatrix { rows, cols, indptr, indices, data }
}


/// The identity matrix of dimension `n`.
pub fn eye(n: usize) -> (res: CsrMatrix)
    requires
        n < usize::MAX,
    ensures
        res.wf(),
        res.rows == n,
        res.cols == n,
        forall|r: int, c: int| #[trigger] res.contains(r, c) <==> (0 <= r < n && r == c),
        forall|r: int| 0 <= r < n ==> #[trigger] res.value(r, r) == 1,
        forall|q: int| 0 <= q < res.nnz() ==> #[trigger] res.data@[q] == 1,
{
    let mut indptr: Vec<usize> = Vec::new();
    let mut indices: Vec<usize> = Vec::new();
    let mut data: Vec<u8> = Vec::new();
    indptr.push(0);
    for i in 0..n
        invariant
            indptr@.len() == i + 1,
            indices@.len() == i,
            data@.len() == i,
            forall|k: int| 0 <= k <= i ==> #[trigger] indptr@[k] == k,
            forall|k: int| 0 <= k < i ==> #[trigger] indices@[k] == k,
            forall|k: int| 0 <= k < i ==> #[trigger] data@[k] == 1,
    {
        indices.push(i);
        data.push(1);
        indptr.push(i + 1);
    }
    let res = CsrMatrix { rows: n, cols: n, indptr, indices, data };
    assert forall|r: int, p: int| res.in_row(r, p) <==> (0 <= r < n && p == r) by {}
    assert forall|r: int, c: int| #[trigger] res.contains(r, c) <==> (0 <= r < n && r == c) by {
        if 0 <= r < n && r == c {
            assert(res.entry_at(r, c, r));
        }
    }
    assert forall|r: int| 0 <= r < n implies #[trigger] res.value(r, r) == 1 by {
        assert(res.entry_at(r, r, r));
        lemma_entry_at(&res, r, r, r);
    }
    res
}

/// The transpose of `h`, with the same stored values.
pub fn transpose(h: &CsrMatrix) -> (res: CsrMatrix)
    requires
        h.wf(),
        h.cols < usize::MAX,
    ensures
        res.wf(),
        res.rows == h.cols,
        res.cols == h.rows,
        forall|r: int, c: int| #[trigger] res.contains(r, c) <==> h.contains(c, r),
        forall|r: int, c: int| res.contains(r, c) ==> #[trigger] res.value(r, c) == h.value(c, r),
{
    let mut t_rows: Vec<usize> = Vec::new();
    let mut t_cols: Vec<usize> = Vec::new();
    let mut t_vals: Vec<u8> = Vec::new();
    for r in 0..h.rows
        invariant
            h.wf(),
            t_rows@.len() == h.indptr@[r as int],
            t_cols@.len() == t_rows@.len(),
            t_vals@.len() == t_rows@.len(),
            forall|k: int|
                0 <= k < t_rows@.len() ==> #[trigger] h.in_row(t_cols@[k] as int, k)
                    && t_rows@[k] == h.indices@[k] && t_vals@[k] == h.data@[k],
    {
        assert(h.indptr@[r as int] <= h.indptr@[r + 1]);
        assert(h.indptr@[r + 1] <= h.indptr@[h.rows as int]);
        let start = h.indptr[r];
        let end = h.indptr[r + 1];
        for p in start..end
            invariant
                start == h.indptr@[r as int],
                end == h.indptr@[r + 1],
                h.wf(),
                0 <= r < h.rows,
                h.indptr@[r + 1] <= h.indices@.len(),
                t_rows@.len() == p,
                t_cols@.len() == t_rows@.len(),
                t_vals@.len() == t_rows@.len(),
                forall|k: int|
                    0 <= k < t_rows@.len() ==> #[trigger] h.in_row(t_cols@[k] as int, k)
                        && t_rows@[k] == h.indices@[k] && t_vals@[k] == h.data@[k],
        {
            t_rows.push(h.indices[p]);
            t_cols.push(r);
            t_vals.push(h.data[p]);
            assert(h.in_row(r as int, p as int));
        }
    }
    let ghost tr = t_rows@;
    let ghost tc = t_cols@;
    let ghost tv = t_vals@;
    assert(t_rows@.len() == h.nnz());
    assert forall|k: int| 0 <= k < tr.len() implies #[trigger] tr[k] < h.cols by {
        assert(h.in_row(tc[k] as int, k));
        assert(h.indices@[k] < h.cols);
    }
    assert forall|k: int| 0 <= k < tc.len() implies #[trigger] tc[k] < h.rows by {
        assert(h.in_row(tc[k] as int, k));
    }
    assert(distinct_positions(tr, tc)) by {
        assert forall|k1: int, k2: int|
            #![trigger tr[k1], tr[k2]]
            0 <= k1 < k2 < tr.len() implies !(tr[k1] == tr[k2] && tc[k1] == tc[k2]) by {
            if tr[k1] == tr[k2] && tc[k1] == tc[k2] {
                assert(h.in_row(tc[k1] as int, k1));
                assert(h.in_row(tc[k2] as int, k2));
                assert(h.entry_at(tc[k1] as int, tr[k1] as int, k1));
                lemma_entry_at(h, tc[k1] as int, tr[k1] as int, k1);
                assert(h.entry_at(tc[k1] as int, tr[k1] as int, k2));
            }
        }
    }
    let res = csr_from_triplets(h.cols, h.rows, t_rows, t_cols, t_vals);
    assert forall|r: int, c: int| #[trigger] res.contains(r, c) <==> h.contains(c, r) by {
        if res.contains(r, c) {
            let k = choose|k: int| 0 <= k < tr.len() && tr[k] == r && tc[k] == c;
            assert(h.in_row(tc[k] as int, k));
            assert(h.entry_at(c, r, k));
        }
        if h.contains(c, r) {
            let p = choose|p: int| #[trigger] h.entry_at(c, r, p);
            assert(h.in_row(tc[p] as int, p));
            lemma_row_unique(h, c, tc[p] as int, p);
            assert(res.contains(tr[p] as int, tc[p] as int));
        }
    }
    assert forall|r: int, c: int| res.contains(r, c) implies #[trigger] res.value(r, c) == h.value(c, r) by {
        let k = choose|k: int| 0 <= k < tr.len() && tr[k] == r && tc[k] == c;
        assert(h.in_row(tc[k] as int, k));
        assert(h.entry_at(c, r, k));
        lemma_entry_at(h, c, r, k);
        assert(res.contains(tr[k] as int, tc[k] as int));
    }
    res
}

/// Triplet `k` is the entry of `m` stored at position `k`, with its column
/// shifted by `col_off`.
pub open spec fn entry_triplets_of(
    m: &CsrMatrix,
    col_off: int,
    rs: Seq<usize>,
    cs: Seq<usize>,
    vs: Seq<u8>,
) -> bool {
    &&& rs.len() == m.nnz()
    &&& cs.len() == m.nnz()
    &&& vs.len() == m.nnz()
    &&& forall|k: int|
        0 <= k < m.nnz() ==> #[trigger] m.in_row(rs[k] as int, k) && cs[k] == m.indices@[k]
            + col_off && vs[k] == m.data@[k]
}

/// Every stored entry of `m` in storage order, as triplets whose column is
/// shifted by `col_off`: triplet `k` is the entry stored at position `k`.
fn entry_triplets(m: &CsrMatrix, col_off: usize) -> (res: (Vec<usize>, Vec<usize>, Vec<u8>))
    requires
        m.wf(),
        m.cols + col_off <= usize::MAX,
    ensures
        entry_triplets_of(m, col_off as int, res.0@, res.1@, res.2@),
{
    let mut t_rows: Vec<usize> = Vec::new();
    let mut t_cols: Vec<usize> = Vec::new();
    let mut t_vals: Vec<u8> = Vec::new();
    let _ = m.indptr.len();
    for r in 0..m.rows
        invariant
            m.wf(),
            m.cols + col_off <= usize::MAX,
            t_rows@.len() == m.indptr@[r as int],
            t_cols@.len() == t_rows@.len(),
            t_vals@.len() == t_rows@.len(),
            forall|k: int|
                0 <= k < t_rows@.len() ==> #[trigger] m.in_row(t_rows@[k] as int, k)
                    && t_cols@[k] == m.indices@[k] + col_off && t_vals@[k] == m.data@[k],
    {
        assert(m.indptr@[r as int] <= m.indptr@[r + 1]);
        assert(m.indptr@[r + 1] <= m.indptr@[m.rows as int]);
        let start = m.indptr[r];
        let end = m.indptr[r + 1];
        for p in start..end
            invariant
                m.wf(),
                m.cols + col_off <= usize::MAX,
                0 <= r < m.rows,
                start == m.indptr@[r as int],
                end == m.indptr@[r + 1],
                end <= m.indices@.len(),
                t_rows@.len() == p,
                t_cols@.len() == t_rows@.len(),
                t_vals@.len() == t_rows@.len(),
                forall|k: int|
                    0 <= k < t_rows@.len() ==> #[trigger] m.in_row(t_rows@[k] as int, k)
                        && t_cols@[k] == m.indices@[k] + col_off && t_vals@[k] == m.data@[k],
        {
            assert(m.indices@[p as int] < m.cols);
            t_rows.push(r);
            t_cols.push(m.indices[p] + col_off);
            t_vals.push(m.data[p]);
            assert(m.in_row(r as int, p as int));
        }
    }
    assert(entry_triplets_of(m, col_off as int, t_rows@, t_cols@, t_vals@));
    (t_rows, t_cols, t_vals)
}

/// Horizontal concatenation `[a | b]` of two matrices with the same number
/// of rows.
pub fn hcat(a: &CsrMatrix, b: &CsrMatrix) -> (res: CsrMatrix)
    requires
        a.wf(),
        b.wf(),
        a.rows == b.rows,
        a.cols + b.cols <= usize::MAX,
    ensures
        res.wf(),
        res.rows == a.rows,
        res.cols == a.cols + b.cols,
        forall|r: int, c: int| #[trigger]
            res.contains(r, c) <==> if c < a.cols {
                a.contains(r, c)
            } else {
                b.contains(r, c - a.cols)
            },
        forall|r: int, c: int|
            res.contains(r, c) ==> #[trigger] res.value(r, c) == if c < a.cols {
                a.value(r, c)
            } else {
                b.value(r, c - a.cols)
            },
{
    let _ = a.indptr.len();
    let (mut t_rows, mut t_cols, mut t_vals) = entry_triplets(a, 0);
    let offset = a.cols;
    let (mut b_rows, mut b_cols, mut b_vals) = entry_triplets(b, offset);
    let ghost ar = t_rows@;
    let ghost ac = t_cols@;
    let ghost av = t_vals@;
    let ghost br = b_rows@;
    let ghost bc = b_cols@;
    let ghost bv = b_vals@;
    t_rows.append(&mut b_rows);
    t_cols.append(&mut b_cols);
    t_vals.append(&mut b_vals);
    let ghost tr = t_rows@;
    let ghost tc = t_cols@;
    let ghost na = a.nnz();
    assert forall|k: int| 0 <= k < na implies #[trigger] a.in_row(tr[k] as int, k) && tc[k]
        == a.indices@[k] && t_vals@[k] == a.data@[k] by {
        assert(tr[k] == ar[k] && tc[k] == ac[k] && t_vals@[k] == av[k]);
        assert(a.in_row(ar[k] as int, k));
    }
    assert forall|k: int| na <= k < tr.len() implies #[trigger] b.in_row(tr[k] as int, k - na)
        && tc[k] == b.indices@[k - na] + a.cols && t_vals@[k] == b.data@[k - na] by {
        assert(tr[k] == br[k - na] && tc[k] == bc[k - na] && t_vals@[k] == bv[k - na]);
        assert(b.in_row(br[k - na] as int, k - na));
    }
    assert forall|k: int| 0 <= k < tr.len() implies #[trigger] tr[k] < a.rows && tc[k] < a.cols
        + b.cols by {
        if k < na {
            assert(a.in_row(tr[k] as int, k));
            assert(a.indices@[k] < a.cols);
        } else {
            assert(b.in_row(tr[k] as int, k - na));
            assert(b.indices@[k - na] < b.cols);
        }
    }
    assert forall|k: int| 0 <= k < tc.len() implies #[trigger] tc[k] < a.cols + b.cols by {
        assert(tr[k] < a.rows && tc[k] < a.cols + b.cols);
    }
    assert(distinct_positions(tr, tc)) by {
        assert forall|k1: int, k2: int|
            #![trigger tr[k1], tr[k2]]
            0 <= k1 < k2 < tr.len() implies !(tr[k1] == tr[k2] && tc[k1] == tc[k2]) by {
            if tr[k1] == tr[k2] && tc[k1] == tc[k2] {
                if k2 < na {
                    assert(a.in_row(tr[k1] as int, k1));
                    assert(a.in_row(tr[k2] as int, k2));
                    assert(a.entry_at(tr[k1] as int, tc[k1] as int, k1));
                    lemma_entry_at(a, tr[k1] as int, tc[k1] as int, k1);
                    assert(a.entry_at(tr[k1] as int, tc[k1] as int, k2));
                } else if k1 < na {
                    assert(a.in_row(tr[k1] as int, k1));
                    assert(a.indices@[k1] < a.cols);
                    assert(b.in_row(tr[k2] as int, k2 - na));
                } else {
                    let c = tc[k1] - a.cols;
                    assert(b.in_row(tr[k1] as int, k1 - na));
                    assert(b.in_row(tr[k2] as int, k2 - na));
                    assert(b.entry_at(tr[k1] as int, c, k1 - na));
                    lemma_entry_at(b, tr[k1] as int, c, k1 - na);
                    assert(b.entry_at(tr[k1] as int, c, k2 - na));
                }
            }
        }
    }
    let res = csr_from_triplets(a.rows, a.cols + b.cols, t_rows, t_cols, t_vals);
    assert forall|r: int, c: int|
        #[trigger] res.contains(r, c) implies (if c < a.cols {
            a.contains(r, c) && res.value(r, c) == a.value(r, c)
        } else {
            b.contains(r, c - a.cols) && res.value(r, c) == b.value(r, c - a.cols)
        }) by {
        let k = choose|k: int| 0 <= k < tr.len() && tr[k] == r && tc[k] == c;
        assert(res.contains(tr[k] as int, tc[k] as int));
        if k < na {
            assert(a.in_row(tr[k] as int, k));
            assert(a.entry_at(r, c, k));
            lemma_entry_at(a, r, c, k);
        } else {
            assert(b.in_row(tr[k] as int, k - na));
            assert(b.entry_at(r, c - a.cols, k - na));
            lemma_entry_at(b, r, c - a.cols, k - na);
        }
    }
    assert forall|r: int, c: int|
        c < a.cols && #[trigger] a.contains(r, c) implies res.contains(r, c) by {
        let p = choose|p: int| #[trigger] a.entry_at(r, c, p);
        assert(a.in_row(tr[p] as int, p));
        lemma_row_unique(a, r, tr[p] as int, p);
        assert(res.contains(tr[p] as int, tc[p] as int));
    }
    assert forall|r: int, c: int|
        c >= a.cols && #[trigger] b.contains(r, c - a.cols) implies res.contains(r, c) by {
        let p = choose|p: int| #[trigger] b.entry_at(r, c - a.cols, p);
        assert(b.in_row(tr[p + na] as int, p));
        lemma_row_unique(b, r, tr[p + na] as int, p);
        assert(res.contains(tr[p + na] as int, tc[p + na] as int));
    }
    res
}

/// `x * d + y` with `0 <= y < d` determines `x` and `y`.
pub proof fn lemma_mixed_radix_unique(x1: int, y1: int, x2: int, y2: int, d: int)
    requires
        0 <= y1 < d,
        0 <= y2 < d,
        x1 * d + y1 == x2 * d + y2,
    ensures
        x1 == x2,
        y1 == y2,
{
    if x1 < x2 {
        assert(x1 * d + d <= x2 * d) by (nonlinear_arith)
            requires
                x1 < x2,
                0 < d,
        ;
    } else if x2 < x1 {
        assert(x2 * d + d <= x1 * d) by (nonlinear_arith)
            requires
                x2 < x1,
                0 < d,
        ;
    }
}

/// `x * d + y` with `x < n` and `y < d` stays below `n * d`.
pub proof fn lemma_mixed_radix_bound(x: int, y: int, n: int, d: int)
    requires
        0 <= x < n,
        0 <= y < d,
    ensures
        0 <= x * d + y < n * d,
{
    assert(0 <= x * d && x * d + d <= n * d) by (nonlinear_arith)
        requires
            0 <= x < n,
            0 <= y < d,
    ;
}

/// Positions `pa` of `a` and `pb` of `b` (in rows `ai` and `bi`) hold
/// nonzero values, so they contribute an entry to the Kronecker product.
pub open spec fn kron_key_ok(a: &CsrMatrix, b: &CsrMatrix, ai: int, pa: int, bi: int, pb: int) -> bool {
    &&& a.in_row(ai, pa)
    &&& b.in_row(bi, pb)
    &&& a.data@[pa] != 0
    &&& b.data@[pb] != 0
}

/// `(pa1, pb1)` comes before `(pa2, pb2)` in lexicographic order.
pub open spec fn key_before(pa1: int, pb1: int, pa2: int, pb2: int) -> bool {
    pa1 < pa2 || (pa1 == pa2 && pb1 < pb2)
}

/// The triplets gathered so far for `kronecker(a, b)`: one for each
/// contributing pair of positions before `(cpa, cpb)`, at pairwise distinct
/// positions.
spec fn kron_state(
    a: &CsrMatrix,
    b: &CsrMatrix,
    tr: Seq<usize>,
    tc: Seq<usize>,
    tv: Seq<u8>,
    keys: Seq<(int, int, int, int)>,
    cpa: int,
    cpb: int,
) -> bool {
    &&& tr.len() == keys.len()
    &&& tc.len() == keys.len()
    &&& tv.len() == keys.len()
    &&& forall|k: int|
        0 <= k < keys.len() ==> {
            let key = #[trigger] keys[k];
            &&& kron_key_ok(a, b, key.0, key.1, key.2, key.3)
            &&& key_before(key.1, key.3, cpa, cpb)
            &&& tr[k] == key.0 * b.rows + key.2
            &&& tc[k] == a.indices@[key.1] * b.cols + b.indices@[key.3]
            &&& tv[k] == a.data@[key.1] * b.data@[key.3]
        }
    &&& distinct_positions(tr, tc)
    &&& forall|ai: int, pa: int, bi: int, pb: int|
        #[trigger] kron_key_ok(a, b, ai, pa, bi, pb) && key_before(pa, pb, cpa, cpb) ==> exists|
            k: int,
        |
            0 <= k < keys.len() && #[trigger] keys[k] == (ai, pa, bi, pb)
}

/// Two contributing pairs of positions land on the same entry of the
/// Kronecker product only if they are the same pair.
proof fn lemma_kron_injective(a: &CsrMatrix, b: &CsrMatrix, k1: (int, int, int, int), k2: (int, int, int, int))
    requires
        a.wf(),
        b.wf(),
        kron_key_ok(a, b, k1.0, k1.1, k1.2, k1.3),
        kron_key_ok(a, b, k2.0, k2.1, k2.2, k2.3),
        k1.0 * b.rows + k1.2 == k2.0 * b.rows + k2.2,
        a.indices@[k1.1] * b.cols + b.indices@[k1.3] == a.indices@[k2.1] * b.cols
            + b.indices@[k2.3],
    ensures
        k1 == k2,
{
    lemma_mixed_radix_unique(k1.0, k1.2, k2.0, k2.2, b.rows as int);
    assert(b.indices@[k1.3] < b.cols);
    assert(b.indices@[k2.3] < b.cols);
    lemma_mixed_radix_unique(
        a.indices@[k1.1] as int,
        b.indices@[k1.3] as int,
        a.indices@[k2.1] as int,
        b.indices@[k2.3] as int,
        b.cols as int,
    );
    assert(a.entry_at(k1.0, a.indices@[k1.1] as int, k1.1));
    lemma_entry_at(a, k1.0, a.indices@[k1.1] as int, k1.1);
    assert(a.entry_at(k1.0, a.indices@[k1.1] as int, k2.1));
    assert(b.entry_at(k1.2, b.indices@[k1.3] as int, k1.3));
    lemma_entry_at(b, k1.2, b.indices@[k1.3] as int, k1.3);
    assert(b.entry_at(k1.2, b.indices@[k1.3] as int, k2.3));
}

/// `res` is the Kronecker product `a ⊗ b`: entry `(r, c)` is stored exactly
/// when `a` stores a nonzero at `(r / b.rows, c / b.cols)` and `b` stores a
/// nonzero at `(r % b.rows, c % b.cols)`, and then holds the product of the
/// two values.
pub open spec fn kronecker_of(res: &CsrMatrix, a: &CsrMatrix, b: &CsrMatrix) -> bool {
    &&& res.rows == a.rows * b.rows
    &&& res.cols == a.cols * b.cols
    &&& forall|r: int, c: int|
        0 <= r < res.rows && 0 <= c < res.cols ==> (#[trigger] res.contains(r, c) <==> (a.nonzero(
            r / b.rows as int,
            c / b.cols as int,
        ) && b.nonzero(r % b.rows as int, c % b.cols as int)))
    &&& forall|r: int, c: int|
        #[trigger] res.contains(r, c) ==> res.value(r, c) == a.value(
            r / b.rows as int,
            c / b.cols as int,
        ) * b.value(r % b.rows as int, c % b.cols as int)
}

/// Splits `x < n * d` into its quotient and remainder by `d`.
pub proof fn lemma_split(x: int, n: int, d: int)
    requires
        0 <= x < n * d,
        0 <= n,
        0 <= d,
    ensures
        d > 0,
        x == (x / d) * d + x % d,
        0 <= x % d < d,
        0 <= x / d < n,
{
    if d == 0 {
        assert(n * d == 0) by (nonlinear_arith)
            requires
                d == 0,
        ;
    }
    vstd::arithmetic::div_mod::lemma_fundamental_div_mod(x, d);
    vstd::arithmetic::div_mod::lemma_mod_pos_bound(x, d);
    let q = x / d;
    assert(x == q * d + x % d) by (nonlinear_arith)
        requires
            x == d * q + x % d,
    ;
    assert(0 <= q < n) by (nonlinear_arith)
        requires
            x == q * d + x % d,
            0 <= x % d < d,
            0 <= x < n * d,
            d > 0,
    ;
}

/// The Kronecker product `a ⊗ b`. Stored entries of value zero in either
/// factor contribute nothing.
pub fn kronecker(a: &CsrMatrix, b: &CsrMatrix) -> (res: CsrMatrix)
    requires
        a.wf(),
        b.wf(),
        a.rows * b.rows < usize::MAX,
        a.cols * b.cols <= usize::MAX,
        forall|p: int, q: int|
            0 <= p < a.nnz() && 0 <= q < b.nnz() ==> #[trigger] a.data@[p] * #[trigger] b.data@[q]
                <= u8::MAX,
    ensures
        res.wf(),
        kronecker_of(&res, a, b),
{
    let arows = a.rows;
    let brows = b.rows;
    let bcols = b.cols;
    let _ = a.indptr.len();
    let _ = b.indptr.len();
    let mut t_rows: Vec<usize> = Vec::new();
    let mut t_cols: Vec<usize> = Vec::new();
    let mut t_vals: Vec<u8> = Vec::new();
    let ghost mut keys: Seq<(int, int, int, int)> = Seq::empty();
    for ai in 0..arows
        invariant
            a.wf(),
            b.wf(),
            arows == a.rows,
            brows == b.rows,
            bcols == b.cols,
            a.rows * b.rows < usize::MAX,
            a.cols * b.cols <= usize::MAX,
            forall|p: int, q: int|
                0 <= p < a.nnz() && 0 <= q < b.nnz() ==> #[trigger] a.data@[p]
                    * #[trigger] b.data@[q] <= u8::MAX,
            kron_state(a, b, t_rows@, t_cols@, t_vals@, keys, a.indptr@[ai as int] as int, 0),
    {
        assert(a.indptr@[ai as int] <= a.indptr@[ai + 1]);
        assert(a.indptr@[ai + 1] <= a.indptr@[a.rows as int]);
        let a_start = a.indptr[ai];
        let a_end = a.indptr[ai + 1];
        for pa in a_start..a_end
            invariant
                a.wf(),
                b.wf(),
                0 <= ai < a.rows,
                arows == a.rows,
                brows == b.rows,
                bcols == b.cols,
                a_start == a.indptr@[ai as int],
                a_end == a.indptr@[ai + 1],
                a_end <= a.nnz(),
                a.rows * b.rows < usize::MAX,
                a.cols * b.cols <= usize::MAX,
                forall|p: int, q: int|
                    0 <= p < a.nnz() && 0 <= q < b.nnz() ==> #[trigger] a.data@[p]
                        * #[trigger] b.data@[q] <= u8::MAX,
                kron_state(a, b, t_rows@, t_cols@, t_vals@, keys, pa as int, 0),
        {
            let aval = a.data[pa];
            let acol = a.indices[pa];
            assert(a.in_row(ai as int, pa as int));
            if aval != 0 {
                for bi in 0..brows
                    invariant
                        a.wf(),
                        b.wf(),
                        0 <= ai < a.rows,
                        a.in_row(ai as int, pa as int),
                        aval == a.data@[pa as int],
                        aval != 0,
                        acol == a.indices@[pa as int],
                        arows == a.rows,
                        brows == b.rows,
                        bcols == b.cols,
                        a.rows * b.rows < usize::MAX,
                        a.cols * b.cols <= usize::MAX,
                        forall|p: int, q: int|
                            0 <= p < a.nnz() && 0 <= q < b.nnz() ==> #[trigger] a.data@[p]
                                * #[trigger] b.data@[q] <= u8::MAX,
                        kron_state(
                            a,
                            b,
                            t_rows@,
                            t_cols@,
                            t_vals@,
                            keys,
                            pa as int,
                            b.indptr@[bi as int] as int,
                        ),
                {
                    assert(b.indptr@[bi as int] <= b.indptr@[bi + 1]);
                    assert(b.indptr@[bi + 1] <= b.indptr@[b.rows as int]);
                    let b_start = b.indptr[bi];
                    let b_end = b.indptr[bi + 1];
                    for pb in b_start..b_end
                        invariant
                            a.wf(),
                            b.wf(),
                            0 <= ai < a.rows,
                            0 <= bi < b.rows,
                            a.in_row(ai as int, pa as int),
                            aval == a.data@[pa as int],
                            aval != 0,
                            acol == a.indices@[pa as int],
                            arows == a.rows,
                            brows == b.rows,
                            bcols == b.cols,
                            b_start == b.indptr@[bi as int],
                            b_end == b.indptr@[bi + 1],
                            b_end <= b.nnz(),
                            a.rows * b.rows < usize::MAX,
                            a.cols * b.cols <= usize::MAX,
                            forall|p: int, q: int|
                                0 <= p < a.nnz() && 0 <= q < b.nnz() ==> #[trigger] a.data@[p]
                                    * #[trigger] b.data@[q] <= u8::MAX,
                            kron_state(a, b, t_rows@, t_cols@, t_vals@, keys, pa as int, pb as int),
                    {
                        let bval = b.data[pb];
                        assert(b.in_row(bi as int, pb as int));
                        if bval != 0 {
                            let ghost key = (ai as int, pa as int, bi as int, pb as int);
                            let bcol = b.indices[pb];
                            proof {
                                lemma_mixed_radix_bound(ai as int, bi as int, a.rows as int, b.rows as int);
                                assert(acol < a.cols);
                                assert(bcol < b.cols);
                                lemma_mixed_radix_bound(acol as int, bcol as int, a.cols as int, b.cols as int);
                                assert(aval * bval <= u8::MAX);
                            }
                            let row = ai * brows + bi;
                            let col = acol * bcols + bcol;
                            let ghost tr0 = t_rows@;
                            let ghost tc0 = t_cols@;
                            let ghost keys0 = keys;
                            proof {
                                assert forall|k: int| 0 <= k < keys0.len() implies !(
                                #[trigger] tr0[k] == row && tc0[k] == col) by {
                                    let kk = keys0[k];
                                    if tr0[k] == row && tc0[k] == col {
                                        lemma_kron_injective(a, b, kk, key);
                                    }
                                }
                            }
                            t_rows.push(row);
                            t_cols.push(col);
                            t_vals.push(aval * bval);
                            proof {
                                keys = keys.push(key);
                                let tr = t_rows@;
                                let tc = t_cols@;
                                assert forall|k1: int, k2: int|
                                    #![trigger tr[k1], tr[k2]]
                                    0 <= k1 < k2 < tr.len() implies !(tr[k1] == tr[k2] && tc[k1]
                                        == tc[k2]) by {
                                    if k2 < tr0.len() {
                                        assert(tr0[k1] == tr[k1] && tr0[k2] == tr[k2]);
                                    } else {
                                        assert(tr0[k1] == tr[k1]);
                                    }
                                }
                                assert forall|ai2: int, pa2: int, bi2: int, pb2: int|
                                    #[trigger] kron_key_ok(a, b, ai2, pa2, bi2, pb2) && key_before(
                                        pa2,
                                        pb2,
                                        pa as int,
                                        pb + 1,
                                    ) implies exists|k: int|
                                    0 <= k < keys.len() && #[trigger] keys[k] == (ai2, pa2, bi2, pb2) by {
                                    if pa2 == pa && pb2 == pb {
                                        lemma_row_unique(a, ai2, ai as int, pa2);
                                        lemma_row_unique(b, bi2, bi as int, pb2);
                                        assert(keys[keys.len() - 1] == (ai2, pa2, bi2, pb2));
                                    } else {
                                        let k = choose|k: int|
                                            0 <= k < keys0.len() && #[trigger] keys0[k] == (
                                                ai2,
                                                pa2,
                                                bi2,
                                                pb2,
                                            );
                                        assert(keys[k] == keys0[k]);
                                    }
                                }
                                assert forall|k: int| 0 <= k < keys.len() implies {
                                    let key = #[trigger] keys[k];
                                    &&& kron_key_ok(a, b, key.0, key.1, key.2, key.3)
                                    &&& key_before(key.1, key.3, pa as int, pb + 1)
                                    &&& t_rows@[k] == key.0 * b.rows + key.2
                                    &&& t_cols@[k] == a.indices@[key.1] * b.cols + b.indices@[key.3]
                                    &&& t_vals@[k] == a.data@[key.1] * b.data@[key.3]
                                } by {
                                    if k < keys0.len() {
                                        assert(keys[k] == keys0[k]);
                                    }
                                }
                            }
                        } else {
                            proof {
                                assert forall|ai2: int, pa2: int, bi2: int, pb2: int|
                                    #[trigger] kron_key_ok(a, b, ai2, pa2, bi2, pb2) && key_before(
                                        pa2,
                                        pb2,
                                        pa as int,
                                        pb + 1,
                                    ) implies exists|k: int|
                                    0 <= k < keys.len() && #[trigger] keys[k] == (ai2, pa2, bi2, pb2) by {
                                    if pa2 == pa && pb2 == pb {
                                        assert(false);
                                    }
                                }
                            }
                        }
                    }
                }
                proof {
                    assert(b.indptr@[b.rows as int] == b.nnz());
                    assert forall|ai2: int, pa2: int, bi2: int, pb2: int|
                        #[trigger] kron_key_ok(a, b, ai2, pa2, bi2, pb2) && key_before(
                            pa2,
                            pb2,
                            pa + 1,
                            0,
                        ) implies exists|k: int|
                        0 <= k < keys.len() && #[trigger] keys[k] == (ai2, pa2, bi2, pb2) by {
                        assert(b.indptr@[bi2 + 1] <= b.indptr@[b.rows as int]);
                        assert(key_before(pa2, pb2, pa as int, b.nnz()));
                    }
                }
            } else {
                proof {
                    assert forall|ai2: int, pa2: int, bi2: int, pb2: int|
                        #[trigger] kron_key_ok(a, b, ai2, pa2, bi2, pb2) && key_before(
                            pa2,
                            pb2,
                            pa + 1,
                            0,
                        ) implies exists|k: int|
                        0 <= k < keys.len() && #[trigger] keys[k] == (ai2, pa2, bi2, pb2) by {
                        assert(pa2 != pa);
                        assert(key_before(pa2, pb2, pa as int, 0));
                    }
                }
            }
        }
    }
    let ghost tr = t_rows@;
    let ghost tc = t_cols@;
    let ghost tv = t_vals@;
    proof {
        assert forall|k: int| 0 <= k < tr.len() implies #[trigger] tr[k] < a.rows * b.rows && tc[k]
            < a.cols * b.cols by {
            let key = keys[k];
            assert(a.indptr@[key.0 + 1] <= a.indptr@[a.rows as int]);
            lemma_mixed_radix_bound(key.0, key.2, a.rows as int, b.rows as int);
            assert(a.indices@[key.1] < a.cols);
            assert(b.indices@[key.3] < b.cols);
            lemma_mixed_radix_bound(
                a.indices@[key.1] as int,
                b.indices@[key.3] as int,
                a.cols as int,
                b.cols as int,
            );
        }
        assert forall|k: int| 0 <= k < tc.len() implies #[trigger] tc[k] < a.cols * b.cols by {
            assert(tr[k] < a.rows * b.rows);
        }
    }
    let res = csr_from_triplets(arows * brows, a.cols * bcols, t_rows, t_cols, t_vals);
    proof {
        assert(a.indptr@[a.rows as int] == a.nnz());
        assert forall|r: int, c: int|
            0 <= r < res.rows && 0 <= c < res.cols implies (#[trigger] res.contains(r, c) <==> (
            a.nonzero(r / b.rows as int, c / b.cols as int) && b.nonzero(
                r % b.rows as int,
                c % b.cols as int,
            ))) && (res.contains(r, c) ==> res.value(r, c) == a.value(
                r / b.rows as int,
                c / b.cols as int,
            ) * b.value(r % b.rows as int, c % b.cols as int)) by {
            lemma_split(r, a.rows as int, b.rows as int);
            lemma_split(c, a.cols as int, b.cols as int);
            let ai = r / b.rows as int;
            let bi = r % b.rows as int;
            let aj = c / b.cols as int;
            let bj = c % b.cols as int;
            if res.contains(r, c) {
                let k = choose|k: int| 0 <= k < tr.len() && tr[k] == r && tc[k] == c;
                let key = keys[k];
                assert(b.indices@[key.3] < b.cols);
                lemma_mixed_radix_unique(key.0, key.2, ai, bi, b.rows as int);
                lemma_mixed_radix_unique(
                    a.indices@[key.1] as int,
                    b.indices@[key.3] as int,
                    aj,
                    bj,
                    b.cols as int,
                );
                assert(a.entry_at(ai, aj, key.1));
                assert(b.entry_at(bi, bj, key.3));
                lemma_entry_at(a, ai, aj, key.1);
                lemma_entry_at(b, bi, bj, key.3);
                assert(res.contains(tr[k] as int, tc[k] as int));
            }
            if a.nonzero(ai, aj) && b.nonzero(bi, bj) {
                let pa = choose|p: int| #[trigger] a.entry_at(ai, aj, p);
                let pb = choose|p: int| #[trigger] b.entry_at(bi, bj, p);
                lemma_entry_at(a, ai, aj, pa);
                lemma_entry_at(b, bi, bj, pb);
                assert(kron_key_ok(a, b, ai, pa, bi, pb));
                assert(key_before(pa, pb, a.nnz(), 0));
                let k = choose|k: int| 0 <= k < keys.len() && #[trigger] keys[k] == (ai, pa, bi, pb);
                assert(res.contains(tr[k] as int, tc[k] as int));
            }
        }
        assert forall|r: int, c: int| #[trigger] res.contains(r, c) implies res.value(r, c)
            == a.value(r / b.rows as int, c / b.cols as int) * b.value(
            r % b.rows as int,
            c % b.cols as int,
        ) by {
            lemma_contains_in_range(&res, r, c);
        }
        assert(kronecker_of(&res, a, b));
    }
    res
}

} // verus!
