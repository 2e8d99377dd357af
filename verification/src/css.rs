//! CSS quantum codes: the orthogonality check `Hx · Hzᵀ = 0 (mod 2)`, the
//! code and graph pair built from it, and two small example codes.

use vstd::prelude::*;
use crate::matrix::{CsrMatrix, csr_from_triplets};
use crate::graph::{Graph, Quantum, lemma_quantum_graph_determined};

verus! {

/// Why a pair of parity-check matrices does not form a CSS code.
#[derive(Debug, PartialEq, Eq, Structural)]
pub enum CssError {
    /// `Hx` and `Hz` have different numbers of columns.
    ColumnMismatch { hx_cols: usize, hz_cols: usize },
    /// Row `row_x` of `Hx` times row `row_z` of `Hz` is 1 modulo 2, so the
    /// two stabilizers anticommute.
    Anticommute { row_x: usize, row_z: usize },
}

/// The columns where row `r` stores an odd value, at positions before
/// `end`.
pub open spec fn prefix_cols(m: &CsrMatrix, r: int, end: int) -> Set<int> {
    Set::new(
        |c: int|
            exists|p: int|
                m.indptr@[r] <= p < end && #[trigger] m.indices@[p] == c && m.data@[p] % 2 == 1,
    )
}

/// Row `ix` of `hx` and row `iz` of `hz` have an even number of columns
/// where both are 1 modulo 2: their product is 0 modulo 2.
pub open spec fn rows_commute(hx: &CsrMatrix, ix: int, hz: &CsrMatrix, iz: int) -> bool {
    hx.odd_row_cols(ix).intersect(hz.odd_row_cols(iz)).len() % 2 == 0
}

/// Every row of `hx` commutes with every row of `hz`: `Hx · Hzᵀ = 0 (mod 2)`.
pub open spec fn css_orthogonal(hx: &CsrMatrix, hz: &CsrMatrix) -> bool {
    forall|ix: int, iz: int|
        0 <= ix < hx.rows && 0 <= iz < hz.rows ==> #[trigger] rows_commute(hx, ix, hz, iz)
}

/// All row pairs before `(ix, iz)` in row-major order commute.
pub open spec fn commute_before(hx: &CsrMatrix, hz: &CsrMatrix, ix: int, iz: int) -> bool {
    &&& forall|i: int, j: int|
        0 <= i < ix && 0 <= j < hz.rows ==> #[trigger] rows_commute(hx, i, hz, j)
    &&& forall|j: int| 0 <= j < iz ==> #[trigger] rows_commute(hx, ix, hz, j)
}

/// Adding the next position of a row to its prefix inserts that column when
/// its value is odd.
proof fn lemma_prefix_cols_step(m: &CsrMatrix, r: int, end: int)
    requires
        m.wf(),
        m.in_row(r, end),
    ensures
        prefix_cols(m, r, end + 1) =~= if m.data@[end] % 2 == 1 {
            prefix_cols(m, r, end).insert(m.indices@[end] as int)
        } else {
            prefix_cols(m, r, end)
        },
        !prefix_cols(m, r, end).contains(m.indices@[end] as int),
        prefix_cols(m, r, end).finite() ==> prefix_cols(m, r, end + 1).finite(),
{
    assert forall|c: int| prefix_cols(m, r, end).contains(c) implies c < m.indices@[end] by {
        let p = choose|p: int|
            m.indptr@[r] <= p < end && #[trigger] m.indices@[p] == c && m.data@[p] % 2 == 1;
        assert(m.in_row(r, p));
    }
    let next = if m.data@[end] % 2 == 1 {
        prefix_cols(m, r, end).insert(m.indices@[end] as int)
    } else {
        prefix_cols(m, r, end)
    };
    assert forall|c: int| #[trigger] next.contains(c) implies prefix_cols(m, r, end + 1).contains(c) by {
        if m.data@[end] % 2 == 1 && c == m.indices@[end] {
            assert(m.indptr@[r] <= end < end + 1 && m.indices@[end] == c && m.data@[end] % 2 == 1);
        } else {
            let p = choose|p: int|
                m.indptr@[r] <= p < end && #[trigger] m.indices@[p] == c && m.data@[p] % 2 == 1;
            assert(m.indptr@[r] <= p < end + 1 && m.indices@[p] == c && m.data@[p] % 2 == 1);
        }
    }
    assert forall|c: int| #[trigger] prefix_cols(m, r, end + 1).contains(c) implies next.contains(c) by {
        let p = choose|p: int|
            m.indptr@[r] <= p < end + 1 && #[trigger] m.indices@[p] == c && m.data@[p] % 2 == 1;
        if p < end {
            assert(prefix_cols(m, r, end).contains(c));
        }
    }
    assert(prefix_cols(m, r, end + 1) =~= next);
}

/// The full prefix of a row is the row's set of odd columns.
proof fn lemma_prefix_cols_full(m: &CsrMatrix, r: int)
    requires
        m.wf(),
        0 <= r < m.rows,
    ensures
        prefix_cols(m, r, m.indptr@[r + 1] as int) =~= m.odd_row_cols(r),
{
    assert forall|c: int| prefix_cols(m, r, m.indptr@[r + 1] as int).contains(c) <==> m.odd_row_cols(
        r,
    ).contains(c) by {
        if prefix_cols(m, r, m.indptr@[r + 1] as int).contains(c) {
            let p = choose|p: int|
                m.indptr@[r] <= p < m.indptr@[r + 1] && #[trigger] m.indices@[p] == c && m.data@[p]
                    % 2 == 1;
            assert(m.entry_at(r, c, p));
            crate::matrix::lemma_entry_at(m, r, c, p);
        }
        if m.odd_row_cols(r).contains(c) {
            let p = choose|p: int| #[trigger] m.entry_at(r, c, p);
            crate::matrix::lemma_entry_at(m, r, c, p);
            assert(m.indptr@[r] <= p < m.indptr@[r + 1] && m.indices@[p] == c && m.data@[p] % 2
                == 1);
        }
    }
}

/// `e` correctly reports why `hx` and `hz` fail the CSS condition; an
/// anticommuting pair is the first one in row-major order.
pub open spec fn css_error_describes(hx: &CsrMatrix, hz: &CsrMatrix, e: CssError) -> bool {
    match e {
        CssError::ColumnMismatch { hx_cols, hz_cols } => {
            &&& hx.cols != hz.cols
            &&& hx_cols == hx.cols
            &&& hz_cols == hz.cols
        },
        CssError::Anticommute { row_x, row_z } => {
            &&& hx.cols == hz.cols
            &&& row_x < hx.rows
            &&& row_z < hz.rows
            &&& !rows_commute(hx, row_x as int, hz, row_z as int)
            &&& commute_before(hx, hz, row_x as int, row_z as int)
        },
    }
}

/// Computes row `ix` of `hx` times row `iz` of `hz` modulo 2: counts, modulo
/// 2, the columns where both rows hold an odd value, by merging the two
/// sorted column lists.
fn row_parity(hx: &CsrMatrix, ix: usize, hz: &CsrMatrix, iz: usize) -> (parity: u8)
    requires
        hx.wf(),
        hz.wf(),
        ix < hx.rows,
        iz < hz.rows,
    ensures
        parity == 0 <==> rows_commute(hx, ix as int, hz, iz as int),
{
    let ghost rx = ix as int;
    let ghost rz = iz as int;
    assert(hx.indptr@[rx] <= hx.indptr@[rx + 1] <= hx.indptr@[hx.rows as int]);
    assert(hz.indptr@[rz] <= hz.indptr@[rz + 1] <= hz.indptr@[hz.rows as int]);
    let sx = hx.indptr[ix];
    let ex = hx.indptr[ix + 1];
    let sz = hz.indptr[iz];
    let ez = hz.indptr[iz + 1];
    let mut parity: u8 = 0;
    let mut px = sx;
    let mut pz = sz;
    assert(prefix_cols(hx, rx, sx as int) =~= Set::empty());
    assert(prefix_cols(hz, rz, sz as int) =~= Set::empty());
    assert(prefix_cols(hx, rx, sx as int).intersect(prefix_cols(hz, rz, sz as int)) =~= Set::<
        int,
    >::empty());
    while px < ex && pz < ez
        invariant
            hx.wf(),
            hz.wf(),
            0 <= rx < hx.rows,
            0 <= rz < hz.rows,
            sx == hx.indptr@[rx],
            ex == hx.indptr@[rx + 1],
            sz == hz.indptr@[rz],
            ez == hz.indptr@[rz + 1],
            ex <= hx.nnz(),
            ez <= hz.nnz(),
            sx <= px <= ex,
            sz <= pz <= ez,
            prefix_cols(hx, rx, px as int).finite(),
            prefix_cols(hz, rz, pz as int).finite(),
            parity == 0 || parity == 1,
            parity == prefix_cols(hx, rx, px as int).intersect(prefix_cols(hz, rz, pz as int)).len()
                % 2,
            forall|p: int, q: int|
                sx <= p < px && pz <= q < ez ==> #[trigger] hx.indices@[p]
                    < #[trigger] hz.indices@[q],
            forall|p: int, q: int|
                sz <= q < pz && px <= p < ex ==> #[trigger] hz.indices@[q]
                    < #[trigger] hx.indices@[p],
        decreases ex - px + ez - pz,
    {
        let ghost xs = prefix_cols(hx, rx, px as int);
        let ghost zs = prefix_cols(hz, rz, pz as int);
        assert(hx.in_row(rx, px as int));
        assert(hz.in_row(rz, pz as int));
        proof {
            lemma_prefix_cols_step(hx, rx, px as int);
            lemma_prefix_cols_step(hz, rz, pz as int);
        }
        let cx = hx.indices[px];
        let cz = hz.indices[pz];
        if cx == cz {
            let both_odd = hx.data[px] % 2 == 1 && hz.data[pz] % 2 == 1;
            if both_odd {
                let ghost old_parity = parity;
                parity ^= 1;
                assert(parity == 1 - old_parity) by (bit_vector)
                    requires
                        old_parity == 0 || old_parity == 1,
                        parity == old_parity ^ 1,
                ;
            }
            proof {
                let c = cx as int;
                let xs2 = prefix_cols(hx, rx, px + 1);
                let zs2 = prefix_cols(hz, rz, pz + 1);
                if both_odd {
                    assert(xs2.intersect(zs2) =~= xs.intersect(zs).insert(c));
                    assert(!xs.intersect(zs).contains(c));
                } else {
                    assert(xs2.intersect(zs2) =~= xs.intersect(zs));
                }
                assert forall|p: int, q: int|
                    sx <= p < px + 1 && pz + 1 <= q < ez implies #[trigger] hx.indices@[p]
                        < #[trigger] hz.indices@[q] by {
                    assert(hz.in_row(rz, q));
                    if p < px {
                    } else {
                        assert(hz.indices@[pz as int] < hz.indices@[q]);
                    }
                }
                assert forall|p: int, q: int|
                    sz <= q < pz + 1 && px + 1 <= p < ex implies #[trigger] hz.indices@[q]
                        < #[trigger] hx.indices@[p] by {
                    assert(hx.in_row(rx, p));
                    if q < pz {
                    } else {
                        assert(hx.indices@[px as int] < hx.indices@[p]);
                    }
                }
            }
            px += 1;
            pz += 1;
        } else if cx < cz {
            proof {
                let c = cx as int;
                assert(!zs.contains(c)) by {
                    if zs.contains(c) {
                        let q = choose|q: int|
                            hz.indptr@[rz] <= q < pz && #[trigger] hz.indices@[q] == c
                                && hz.data@[q] % 2 == 1;
                        assert(hz.indices@[q] < hx.indices@[px as int]);
                    }
                }
                assert(prefix_cols(hx, rx, px + 1).intersect(zs) =~= xs.intersect(zs));
                assert forall|p: int, q: int|
                    sx <= p < px + 1 && pz <= q < ez implies #[trigger] hx.indices@[p]
                        < #[trigger] hz.indices@[q] by {
                    assert(hz.in_row(rz, q));
                    if p < px {
                    } else if q > pz {
                        assert(hz.indices@[pz as int] < hz.indices@[q]);
                    }
                }
            }
            px += 1;
        } else {
            proof {
                let c = cz as int;
                assert(!xs.contains(c)) by {
                    if xs.contains(c) {
                        let p = choose|p: int|
                            hx.indptr@[rx] <= p < px && #[trigger] hx.indices@[p] == c
                                && hx.data@[p] % 2 == 1;
                        assert(hx.indices@[p] < hz.indices@[pz as int]);
                    }
                }
                assert(xs.intersect(prefix_cols(hz, rz, pz + 1)) =~= xs.intersect(zs));
                assert forall|p: int, q: int|
                    sz <= q < pz + 1 && px <= p < ex implies #[trigger] hz.indices@[q]
                        < #[trigger] hx.indices@[p] by {
                    assert(hx.in_row(rx, p));
                    if q < pz {
                    } else if p > px {
                        assert(hx.indices@[px as int] < hx.indices@[p]);
                    }
                }
            }
            pz += 1;
        }
    }
    proof {
        let xs = prefix_cols(hx, rx, px as int);
        let zs = prefix_cols(hz, rz, pz as int);
        let xf = prefix_cols(hx, rx, ex as int);
        let zf = prefix_cols(hz, rz, ez as int);
        lemma_prefix_cols_full(hx, rx);
        lemma_prefix_cols_full(hz, rz);
        assert(xf.intersect(zf) =~= xs.intersect(zs)) by {
            assert forall|c: int| xf.intersect(zf).contains(c) implies xs.intersect(zs).contains(c) by {
                let p = choose|p: int|
                    hx.indptr@[rx] <= p < ex && #[trigger] hx.indices@[p] == c && hx.data@[p] % 2
                        == 1;
                let q = choose|q: int|
                    hz.indptr@[rz] <= q < ez && #[trigger] hz.indices@[q] == c && hz.data@[q] % 2
                        == 1;
                if p >= px {
                    assert(pz == ez);
                    assert(hz.indices@[q] < hx.indices@[p]);
                }
                if q >= pz {
                    assert(px == ex);
                    assert(hx.indices@[p] < hz.indices@[q]);
                }
                assert(xs.contains(c));
                assert(zs.contains(c));
            }
            assert forall|c: int| xs.intersect(zs).contains(c) implies xf.intersect(zf).contains(c) by {
                let p = choose|p: int|
                    hx.indptr@[rx] <= p < px && #[trigger] hx.indices@[p] == c && hx.data@[p] % 2
                        == 1;
                let q = choose|q: int|
                    hz.indptr@[rz] <= q < pz && #[trigger] hz.indices@[q] == c && hz.data@[q] % 2
                        == 1;
                assert(hx.indptr@[rx] <= p < ex && hx.indices@[p] == c && hx.data@[p] % 2 == 1);
                assert(hz.indptr@[rz] <= q < ez && hz.indices@[q] == c && hz.data@[q] % 2 == 1);
            }
        }
    }
    parity
}

/// Checks the CSS condition `Hx · Hzᵀ = 0 (mod 2)`: `hx` and `hz` have the
/// same number of columns and every row of `hx` times every row of `hz` is 0
/// modulo 2. The first anticommuting pair in row-major order is reported.
pub fn check_css(hx: &CsrMatrix, hz: &CsrMatrix) -> (res: Result<(), CssError>)
    requires
        hx.wf(),
        hz.wf(),
    ensures
        res is Ok <==> hx.cols == hz.cols && css_orthogonal(hx, hz),
        match res {
            Ok(()) => true,
            Err(e) => css_error_describes(hx, hz, e),
        },
{
    if hx.cols != hz.cols {
        return Err(CssError::ColumnMismatch { hx_cols: hx.cols, hz_cols: hz.cols });
    }
    for ix in 0..hx.rows
        invariant
            hx.wf(),
            hz.wf(),
            hx.cols == hz.cols,
            commute_before(hx, hz, ix as int, 0),
    {
        for iz in 0..hz.rows
            invariant
                hx.wf(),
                hz.wf(),
                hx.cols == hz.cols,
                0 <= ix < hx.rows,
                commute_before(hx, hz, ix as int, iz as int),
        {
            let parity = row_parity(hx, ix, hz, iz);
            if parity != 0 {
                return Err(CssError::Anticommute { row_x: ix, row_z: iz });
            }
        }
        assert forall|i: int, j: int|
            0 <= i < ix + 1 && 0 <= j < hz.rows implies #[trigger] rows_commute(hx, i, hz, j) by {
            if i == ix {
                assert(rows_commute(hx, ix as int, hz, j));
            }
        }
    }
    Ok(())
}

/// A CSS code given by its two parity-check matrices.
pub struct CssCode {
    pub hx: CsrMatrix,
    pub hz: CsrMatrix,
}

impl CssCode {
    /// Builds the code after checking `Hx · Hzᵀ = 0 (mod 2)`.
    pub fn new(hx: CsrMatrix, hz: CsrMatrix) -> (res: Result<Self, CssError>)
        requires
            hx.wf(),
            hz.wf(),
        ensures
            res is Ok <==> hx.cols == hz.cols && css_orthogonal(&hx, &hz),
            match res {
                Ok(code) => code.hx == hx && code.hz == hz,
                Err(e) => css_error_describes(&hx, &hz, e),
            },
    {
        match check_css(&hx, &hz) {
            Ok(()) => Ok(CssCode { hx, hz }),
            Err(e) => Err(e),
        }
    }
}

/// The two Tanner graphs of a CSS code, both with syndrome-error nodes:
/// `x` is built from `Hx` (detecting Z errors), `z` from `Hz` (detecting X
/// errors).
pub struct CssGraphs {
    pub x: Graph<Quantum>,
    pub z: Graph<Quantum>,
}

impl CssGraphs {
    /// Builds the decoding graphs of both parity-check matrices of `code`.
    pub fn new(code: &CssCode) -> (res: Self)
        requires
            code.hx.wf(),
            code.hz.wf(),
            code.hx.rows > 0,
            code.hz.rows > 0,
            code.hx.cols + code.hx.rows <= usize::MAX,
            code.hx.nnz() + code.hx.rows <= usize::MAX,
            code.hz.cols + code.hz.rows <= usize::MAX,
            code.hz.nnz() + code.hz.rows <= usize::MAX,
        ensures
            res.x.built_from(&code.hx),
            res.z.built_from(&code.hz),
            res.x.wf(),
            res.z.wf(),
            res.x.incidence_consistent(),
            res.z.incidence_consistent(),
    {
        let x = Graph::<Quantum>::build(&code.hx);
        let z = Graph::<Quantum>::build(&code.hz);
        CssGraphs { x, z }
    }
}

/// The graphs of a CSS code are those that `Graph::<Quantum>::new` builds
/// from each of its two matrices: any graph built from `Hx` equals `x`, any
/// graph built from `Hz` equals `z`.
pub proof fn lemma_css_graphs_match(
    graphs: &CssGraphs,
    code: &CssCode,
    gx: &Graph<Quantum>,
    gz: &Graph<Quantum>,
)
    requires
        code.hx.wf(),
        code.hz.wf(),
        graphs.x.built_from(&code.hx),
        graphs.z.built_from(&code.hz),
        gx.built_from(&code.hx),
        gz.built_from(&code.hz),
    ensures
        graphs.x.same_graph(gx),
        graphs.z.same_graph(gz),
{
    lemma_quantum_graph_determined(&graphs.x, gx, &code.hx);
    lemma_quantum_graph_determined(&graphs.z, gz, &code.hz);
}

/// The 3-qubit repetition code as a CSS code: `Hx = [1 1 0; 0 1 1]`,
/// `Hz = [1 1 1]`.
pub fn css_3qubit() -> (res: (CsrMatrix, CsrMatrix))
    ensures
        res.0.wf(),
        res.1.wf(),
        res.0.matches_dense(seq![seq![1u8, 1, 0], seq![0u8, 1, 1]]),
        res.1.matches_dense(seq![seq![1u8, 1, 1]]),
{
    // row 0: 1 1 0, row 1: 0 1 1
    let hx = csr_from_triplets(2, 3, vec![0, 0, 1, 1], vec![0, 1, 1, 2], vec![1, 1, 1, 1]);
    // row 0: 1 1 1
    let hz = csr_from_triplets(1, 3, vec![0, 0, 0], vec![0, 1, 2], vec![1, 1, 1]);
    proof {
        let dx = seq![seq![1u8, 1, 0], seq![0u8, 1, 1]];
        let dz = seq![seq![1u8, 1, 1]];
        assert forall|r: int, c: int|
            0 <= r < hx.rows && 0 <= c < hx.cols implies (#[trigger] hx.contains(r, c) <==> dx[r][c] != 0) by {
            if r == 0 && c == 0 { assert(hx.contains(0int, 0int)); }
            if r == 0 && c == 1 { assert(hx.contains(0int, 1int)); }
            if r == 1 && c == 1 { assert(hx.contains(1int, 1int)); }
            if r == 1 && c == 2 { assert(hx.contains(1int, 2int)); }
        }
        assert forall|r: int, c: int| #[trigger] hx.contains(r, c) implies hx.value(r, c) == dx[r][c] by {}
        assert forall|r: int, c: int|
            0 <= r < hz.rows && 0 <= c < hz.cols implies (#[trigger] hz.contains(r, c) <==> dz[r][c] != 0) by {
            if c == 0 { assert(hz.contains(0int, 0int)); }
            if c == 1 { assert(hz.contains(0int, 1int)); }
            if c == 2 { assert(hz.contains(0int, 2int)); }
        }
        assert forall|r: int, c: int| #[trigger] hz.contains(r, c) implies hz.value(r, c) == dz[r][c] by {}
    }
    (hx, hz)
}

/// The parity-check matrix of the [7,4] Hamming code.
pub open spec fn hamming_7_dense() -> Seq<Seq<u8>> {
    seq![
        seq![1u8, 0, 0, 1, 0, 1, 1],
        seq![0u8, 1, 0, 1, 1, 0, 1],
        seq![0u8, 0, 1, 0, 1, 1, 1],
    ]
}

/// Builds the parity-check matrix of the [7,4] Hamming code.
fn hamming_7() -> (h: CsrMatrix)
    ensures
        h.wf(),
        h.matches_dense(hamming_7_dense()),
{
    let h = csr_from_triplets(
        3,
        7,
        vec![0, 0, 0, 0, 1, 1, 1, 1, 2, 2, 2, 2],
        // Row 0: 1 0 0 1 0 1 1, Row 1: 0 1 0 1 1 0 1, Row 2: 0 0 1 0 1 1 1
        vec![0, 3, 5, 6, 1, 3, 4, 6, 2, 4, 5, 6],
        vec![1, 1, 1, 1, 1, 1, 1, 1, 1, 1, 1, 1],
    );
    proof {
        let d = hamming_7_dense();
        assert forall|r: int, c: int|
            0 <= r < h.rows && 0 <= c < h.cols implies (#[trigger] h.contains(r, c) <==> d[r][c] != 0) by {
            if d[r][c] != 0 {
                if r == 0 && c == 0 { assert(h.contains(0int, 0int)); }
                if r == 0 && c == 3 { assert(h.contains(0int, 3int)); }
                if r == 0 && c == 5 { assert(h.contains(0int, 5int)); }
                if r == 0 && c == 6 { assert(h.contains(0int, 6int)); }
                if r == 1 && c == 1 { assert(h.contains(1int, 1int)); }
                if r == 1 && c == 3 { assert(h.contains(1int, 3int)); }
                if r == 1 && c == 4 { assert(h.contains(1int, 4int)); }
                if r == 1 && c == 6 { assert(h.contains(1int, 6int)); }
                if r == 2 && c == 2 { assert(h.contains(2int, 2int)); }
                if r == 2 && c == 4 { assert(h.contains(2int, 4int)); }
                if r == 2 && c == 5 { assert(h.contains(2int, 5int)); }
                if r == 2 && c == 6 { assert(h.contains(2int, 6int)); }
            }
        }
        assert forall|r: int, c: int| #[trigger] h.contains(r, c) implies h.value(r, c) == d[r][c] by {}
    }
    h
}

/// The Steane code: the CSS code with `Hx = Hz` the parity-check matrix of
/// the [7,4] Hamming code.
pub fn css_steane_code() -> (res: (CsrMatrix, CsrMatrix))
    ensures
        res.0.wf(),
        res.1.wf(),
        res.0.matches_dense(hamming_7_dense()),
        res.1.matches_dense(hamming_7_dense()),
{
    (hamming_7(), hamming_7())
}

} // verus!
