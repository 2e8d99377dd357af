//! Hypergraph product codes: a CSS code built from two classical
//! parity-check matrices.

use vstd::prelude::*;
use crate::matrix::{CsrMatrix, eye, hcat, kronecker, transpose};
use crate::random_ldpc::gen_ldpc;

verus! {

/// A hypergraph product code of a random regular LDPC code with itself:
/// the seed code has `n_seed` columns of degree `dv` and `n_seed * dv / dc`
/// rows of degree `dc`.
pub fn hgp_from_random(n_seed: usize, dv: usize, dc: usize) -> (res: (CsrMatrix, CsrMatrix))
    requires
        dc != 0,
        n_seed * dv <= usize::MAX,
        (n_seed * dv) % (dc as int) == 0,
        n_seed < usize::MAX,
        (n_seed * dv / (dc as int)) * n_seed < usize::MAX,
        n_seed * n_seed + (n_seed * dv / (dc as int)) * (n_seed * dv / (dc as int)) <= usize::MAX,
    ensures
        res.0.wf(),
        res.1.wf(),
        exists|h: CsrMatrix|
            {
                &&& h.wf()
                &&& h.cols == n_seed
                &&& h.rows == n_seed * dv / (dc as int)
                &&& #[trigger] crate::random_ldpc::random_ldpc_of(&h, n_seed as int, dv as int, dc as int)
                &&& hgp_x_of(&res.0, &h, &h)
                &&& hgp_z_of(&res.1, &h, &h)
            },
        res.0.cols == res.1.cols,
        crate::css::css_orthogonal(&res.0, &res.1),
{
    proof {
        let m = n_seed * dv / (dc as int);
        assert(0 <= m) by {
            vstd::arithmetic::div_mod::lemma_div_pos_is_pos(n_seed * dv, dc as int);
        }
        assert(m <= n_seed * dv) by {
            vstd::arithmetic::div_mod::lemma_div_is_ordered_by_denominator(n_seed * dv, 1, dc as int);
        }
        if n_seed == 0 {
            assert(n_seed * dv == 0);
        } else {
            assert(m <= m * n_seed) by (nonlinear_arith)
                requires
                    0 <= m,
                    1 <= n_seed,
            ;
        }
    }
    let h = gen_ldpc(n_seed, dv, dc);
    proof {
        let m = n_seed * dv / (dc as int);
        assert(n_seed * m == m * n_seed) by (nonlinear_arith);
        assert(0 <= n_seed * n_seed && 0 <= m * m) by (nonlinear_arith)
            requires
                0 <= m,
        ;
        assert(m <= m * m || m == 0) by (nonlinear_arith)
            requires
                0 <= m,
        ;
    }
    let (hx, hz) = hgp(&h, &h);
    proof {
        assert(crate::random_ldpc::random_ldpc_of(&h, n_seed as int, dv as int, dc as int));
    }
    (hx, hz)
}

/// `hx` is `[ H1 ⊗ I_n2 | I_m1 ⊗ H2ᵀ ]` for `h1` of shape `m1 × n1` and `h2`
/// of shape `m2 × n2`.
pub open spec fn hgp_x_of(hx: &CsrMatrix, h1: &CsrMatrix, h2: &CsrMatrix) -> bool {
    let (m1, n1, m2, n2) = (h1.rows as int, h1.cols as int, h2.rows as int, h2.cols as int);
    &&& hx.rows == m1 * n2
    &&& hx.cols == n1 * n2 + m1 * m2
    &&& forall|r: int, c: int|
        0 <= r < hx.rows && 0 <= c < hx.cols ==> (#[trigger] hx.contains(r, c) <==> if c < n1 * n2 {
            h1.nonzero(r / n2, c / n2) && r % n2 == c % n2
        } else {
            r / n2 == (c - n1 * n2) / m2 && h2.nonzero((c - n1 * n2) % m2, r % n2)
        })
    &&& forall|r: int, c: int|
        #[trigger] hx.contains(r, c) ==> hx.value(r, c) == if c < n1 * n2 {
            h1.value(r / n2, c / n2)
        } else {
            h2.value((c - n1 * n2) % m2, r % n2)
        }
}

/// `hz` is `[ I_n1 ⊗ H2 | H1ᵀ ⊗ I_m2 ]` for `h1` of shape `m1 × n1` and `h2`
/// of shape `m2 × n2`.
pub open spec fn hgp_z_of(hz: &CsrMatrix, h1: &CsrMatrix, h2: &CsrMatrix) -> bool {
    let (m1, n1, m2, n2) = (h1.rows as int, h1.cols as int, h2.rows as int, h2.cols as int);
    &&& hz.rows == n1 * m2
    &&& hz.cols == n1 * n2 + m1 * m2
    &&& forall|r: int, c: int|
        0 <= r < hz.rows && 0 <= c < hz.cols ==> (#[trigger] hz.contains(r, c) <==> if c < n1 * n2 {
            r / m2 == c / n2 && h2.nonzero(r % m2, c % n2)
        } else {
            h1.nonzero((c - n1 * n2) / m2, r / m2) && r % m2 == (c - n1 * n2) % m2
        })
    &&& forall|r: int, c: int|
        #[trigger] hz.contains(r, c) ==> hz.value(r, c) == if c < n1 * n2 {
            h2.value(r % m2, c % n2)
        } else {
            h1.value((c - n1 * n2) / m2, r / m2)
        }
}

/// The hypergraph product of `h1` and `h2`:
/// `Hx = [ H1 ⊗ I_n2 | I_m1 ⊗ H2ᵀ ]` and `Hz = [ I_n1 ⊗ H2 | H1ᵀ ⊗ I_m2 ]`.
pub fn hgp(h1: &CsrMatrix, h2: &CsrMatrix) -> (res: (CsrMatrix, CsrMatrix))
    requires
        h1.wf(),
        h2.wf(),
        h1.rows < usize::MAX,
        h1.cols < usize::MAX,
        h2.rows < usize::MAX,
        h2.cols < usize::MAX,
        h1.rows * h2.cols < usize::MAX,
        h1.cols * h2.rows < usize::MAX,
        h1.cols * h2.cols + h1.rows * h2.rows <= usize::MAX,
    ensures
        res.0.wf(),
        res.1.wf(),
        hgp_x_of(&res.0, h1, h2),
        hgp_z_of(&res.1, h1, h2),
        res.0.cols == res.1.cols,
        crate::css::css_orthogonal(&res.0, &res.1),
{
    let m1 = h1.rows;
    let n1 = h1.cols;
    let m2 = h2.rows;
    let n2 = h2.cols;
    proof {
        assert(0 <= h1.cols * h2.cols && 0 <= h1.rows * h2.rows) by (nonlinear_arith)
            requires
                0 <= h1.cols,
                0 <= h2.cols,
                0 <= h1.rows,
                0 <= h2.rows,
        ;
    }
    let i_n1 = eye(n1);
    let i_n2 = eye(n2);
    let i_m1 = eye(m1);
    let i_m2 = eye(m2);
    let h1_t = transpose(h1);
    let h2_t = transpose(h2);
    let hx_left = kronecker(h1, &i_n2);
    let hx_right = kronecker(&i_m1, &h2_t);
    let hx = hcat(&hx_left, &hx_right);
    let hz_left = kronecker(&i_n1, h2);
    let hz_right = kronecker(&h1_t, &i_m2);
    let hz = hcat(&hz_left, &hz_right);
    proof {
        lemma_hgp_x(h1, h2, &i_n2, &i_m1, &h2_t, &hx_left, &hx_right, &hx);
        lemma_hgp_z(h1, h2, &i_n1, &i_m2, &h1_t, &hz_left, &hz_right, &hz);
        lemma_hgp_is_css(h1, h2, &hx, &hz);
    }
    (hx, hz)
}

/// `Hx` assembled from its Kronecker blocks has the entries of `hgp_x_of`.
proof fn lemma_hgp_x(
    h1: &CsrMatrix,
    h2: &CsrMatrix,
    i_n2: &CsrMatrix,
    i_m1: &CsrMatrix,
    h2_t: &CsrMatrix,
    left: &CsrMatrix,
    right: &CsrMatrix,
    hx: &CsrMatrix,
)
    requires
        h1.wf(),
        h2.wf(),
        i_n2.rows == h2.cols && i_n2.cols == h2.cols,
        forall|r: int, c: int| #[trigger] i_n2.contains(r, c) <==> (0 <= r < h2.cols && r == c),
        forall|r: int| 0 <= r < h2.cols ==> #[trigger] i_n2.value(r, r) == 1,
        i_m1.rows == h1.rows && i_m1.cols == h1.rows,
        forall|r: int, c: int| #[trigger] i_m1.contains(r, c) <==> (0 <= r < h1.rows && r == c),
        forall|r: int| 0 <= r < h1.rows ==> #[trigger] i_m1.value(r, r) == 1,
        h2_t.rows == h2.cols,
        h2_t.cols == h2.rows,
        forall|r: int, c: int| #[trigger] h2_t.contains(r, c) <==> h2.contains(c, r),
        forall|r: int, c: int| h2_t.contains(r, c) ==> #[trigger] h2_t.value(r, c) == h2.value(c, r),
        crate::matrix::kronecker_of(left, h1, i_n2),
        crate::matrix::kronecker_of(right, i_m1, h2_t),
        hx.rows == left.rows,
        hx.cols == left.cols + right.cols,
        forall|r: int, c: int| #[trigger]
            hx.contains(r, c) <==> if c < left.cols {
                left.contains(r, c)
            } else {
                right.contains(r, c - left.cols)
            },
        forall|r: int, c: int|
            hx.contains(r, c) ==> #[trigger] hx.value(r, c) == if c < left.cols {
                left.value(r, c)
            } else {
                right.value(r, c - left.cols)
            },
        hx.wf(),
    ensures
        hgp_x_of(hx, h1, h2),
{
    let (m1, n1, m2, n2) = (h1.rows as int, h1.cols as int, h2.rows as int, h2.cols as int);
    assert(left.cols == n1 * n2);
    assert forall|r: int, c: int|
        0 <= r < hx.rows && 0 <= c < hx.cols implies (#[trigger] hx.contains(r, c) <==> if c < n1 * n2 {
            h1.nonzero(r / n2, c / n2) && r % n2 == c % n2
        } else {
            r / n2 == (c - n1 * n2) / m2 && h2.nonzero((c - n1 * n2) % m2, r % n2)
        }) && (hx.contains(r, c) ==> hx.value(r, c) == if c < n1 * n2 {
            h1.value(r / n2, c / n2)
        } else {
            h2.value((c - n1 * n2) % m2, r % n2)
        }) by {
        crate::matrix::lemma_split(r, m1, n2);
        if c < n1 * n2 {
            crate::matrix::lemma_split(c, n1, n2);
            assert(left.contains(r, c) <==> (h1.nonzero(r / n2, c / n2) && i_n2.nonzero(r % n2, c % n2)));
            if r % n2 == c % n2 {
                assert(i_n2.value(r % n2, r % n2) == 1);
                assert(i_n2.nonzero(r % n2, c % n2));
            } else {
                assert(!i_n2.contains(r % n2, c % n2));
            }
            assert(hx.contains(r, c) == (h1.nonzero(r / n2, c / n2) && r % n2 == c % n2));
            if hx.contains(r, c) {
                assert(hx.value(r, c) == left.value(r, c));
                assert(left.value(r, c) == h1.value(r / n2, c / n2) * i_n2.value(r % n2, c % n2));
            }
        } else {
            let c2 = c - n1 * n2;
            assert(right.cols == m1 * m2);
            crate::matrix::lemma_split(c2, m1, m2);
            assert(right.contains(r, c2) <==> (i_m1.nonzero(r / n2, c2 / m2) && h2_t.nonzero(r % n2, c2 % m2)));
            assert(h2_t.nonzero(r % n2, c2 % m2) == h2.nonzero(c2 % m2, r % n2));
            if r / n2 == c2 / m2 {
                assert(i_m1.value(r / n2, r / n2) == 1);
                assert(i_m1.nonzero(r / n2, c2 / m2));
            } else {
                assert(!i_m1.contains(r / n2, c2 / m2));
            }
            assert(hx.contains(r, c) == (r / n2 == c2 / m2 && h2.nonzero(c2 % m2, r % n2)));
            if hx.contains(r, c) {
                assert(hx.value(r, c) == right.value(r, c2));
                assert(right.value(r, c2) == i_m1.value(r / n2, c2 / m2) * h2_t.value(r % n2, c2 % m2));
            }
        }
    }
}

/// `Hz` assembled from its Kronecker blocks has the entries of `hgp_z_of`.
proof fn lemma_hgp_z(
    h1: &CsrMatrix,
    h2: &CsrMatrix,
    i_n1: &CsrMatrix,
    i_m2: &CsrMatrix,
    h1_t: &CsrMatrix,
    left: &CsrMatrix,
    right: &CsrMatrix,
    hz: &CsrMatrix,
)
    requires
        h1.wf(),
        h2.wf(),
        i_n1.rows == h1.cols && i_n1.cols == h1.cols,
        forall|r: int, c: int| #[trigger] i_n1.contains(r, c) <==> (0 <= r < h1.cols && r == c),
        forall|r: int| 0 <= r < h1.cols ==> #[trigger] i_n1.value(r, r) == 1,
        i_m2.rows == h2.rows && i_m2.cols == h2.rows,
        forall|r: int, c: int| #[trigger] i_m2.contains(r, c) <==> (0 <= r < h2.rows && r == c),
        forall|r: int| 0 <= r < h2.rows ==> #[trigger] i_m2.value(r, r) == 1,
        h1_t.rows == h1.cols,
        h1_t.cols == h1.rows,
        forall|r: int, c: int| #[trigger] h1_t.contains(r, c) <==> h1.contains(c, r),
        forall|r: int, c: int| h1_t.contains(r, c) ==> #[trigger] h1_t.value(r, c) == h1.value(c, r),
        crate::matrix::kronecker_of(left, i_n1, h2),
        crate::matrix::kronecker_of(right, h1_t, i_m2),
        hz.rows == left.rows,
        hz.cols == left.cols + right.cols,
        forall|r: int, c: int| #[trigger]
            hz.contains(r, c) <==> if c < left.cols {
                left.contains(r, c)
            } else {
                right.contains(r, c - left.cols)
            },
        forall|r: int, c: int|
            hz.contains(r, c) ==> #[trigger] hz.value(r, c) == if c < left.cols {
                left.value(r, c)
            } else {
                right.value(r, c - left.cols)
            },
        hz.wf(),
    ensures
        hgp_z_of(hz, h1, h2),
{
    let (m1, n1, m2, n2) = (h1.rows as int, h1.cols as int, h2.rows as int, h2.cols as int);
    assert(left.cols == n1 * n2);
    assert forall|r: int, c: int|
        0 <= r < hz.rows && 0 <= c < hz.cols implies (#[trigger] hz.contains(r, c) <==> if c < n1 * n2 {
            r / m2 == c / n2 && h2.nonzero(r % m2, c % n2)
        } else {
            h1.nonzero((c - n1 * n2) / m2, r / m2) && r % m2 == (c - n1 * n2) % m2
        }) && (hz.contains(r, c) ==> hz.value(r, c) == if c < n1 * n2 {
            h2.value(r % m2, c % n2)
        } else {
            h1.value((c - n1 * n2) / m2, r / m2)
        }) by {
        crate::matrix::lemma_split(r, n1, m2);
        if c < n1 * n2 {
            crate::matrix::lemma_split(c, n1, n2);
            assert(left.contains(r, c) <==> (i_n1.nonzero(r / m2, c / n2) && h2.nonzero(r % m2, c % n2)));
            if r / m2 == c / n2 {
                assert(i_n1.value(r / m2, r / m2) == 1);
                assert(i_n1.nonzero(r / m2, c / n2));
            } else {
                assert(!i_n1.contains(r / m2, c / n2));
            }
            assert(hz.contains(r, c) == (r / m2 == c / n2 && h2.nonzero(r % m2, c % n2)));
            if hz.contains(r, c) {
                assert(hz.value(r, c) == left.value(r, c));
                assert(left.value(r, c) == i_n1.value(r / m2, c / n2) * h2.value(r % m2, c % n2));
            }
        } else {
            let c2 = c - n1 * n2;
            assert(right.cols == m1 * m2);
            crate::matrix::lemma_split(c2, m1, m2);
            assert(right.contains(r, c2) <==> (h1_t.nonzero(r / m2, c2 / m2) && i_m2.nonzero(r % m2, c2 % m2)));
            assert(h1_t.nonzero(r / m2, c2 / m2) == h1.nonzero(c2 / m2, r / m2));
            if r % m2 == c2 % m2 {
                assert(i_m2.value(r % m2, r % m2) == 1);
                assert(i_m2.nonzero(r % m2, c2 % m2));
            } else {
                assert(!i_m2.contains(r % m2, c2 % m2));
            }
            assert(hz.contains(r, c) == (h1.nonzero(c2 / m2, r / m2) && r % m2 == c2 % m2));
            if hz.contains(r, c) {
                assert(hz.value(r, c) == right.value(r, c2));
                assert(right.value(r, c2) == h1_t.value(r / m2, c2 / m2) * i_m2.value(r % m2, c2 % m2));
            }
        }
    }
}

/// Row `rx` of `Hx` and row `rz` of `Hz` of a hypergraph product are both
/// odd either on no column or on exactly the two columns `c1` (left block)
/// and `c2` (right block), so their product is 0 modulo 2.
proof fn lemma_hgp_rows_commute(h1: &CsrMatrix, h2: &CsrMatrix, hx: &CsrMatrix, hz: &CsrMatrix, rx: int, rz: int)
    requires
        h1.wf(),
        h2.wf(),
        hx.wf(),
        hz.wf(),
        hgp_x_of(hx, h1, h2),
        hgp_z_of(hz, h1, h2),
        0 <= rx < hx.rows,
        0 <= rz < hz.rows,
    ensures
        crate::css::rows_commute(hx, rx, hz, rz),
{
    let (m1, n1, m2, n2) = (h1.rows as int, h1.cols as int, h2.rows as int, h2.cols as int);
    crate::matrix::lemma_split(rx, m1, n2);
    crate::matrix::lemma_split(rz, n1, m2);
    let i1 = rx / n2;
    let j2 = rx % n2;
    let j1 = rz / m2;
    let i2 = rz % m2;
    let both = h1.odd(i1, j1) && h2.odd(i2, j2);
    let c1 = j1 * n2 + j2;
    let c2 = n1 * n2 + i1 * m2 + i2;
    crate::matrix::lemma_mixed_radix_bound(j1, j2, n1, n2);
    crate::matrix::lemma_mixed_radix_bound(i1, i2, m1, m2);
    let s = hx.odd_row_cols(rx).intersect(hz.odd_row_cols(rz));
    let expected = if both { Set::empty().insert(c1).insert(c2) } else { Set::<int>::empty() };
    assert forall|c: int| s.contains(c) implies expected.contains(c) by {
        crate::matrix::lemma_contains_in_range(hx, rx, c);
        assert(hx.odd(rx, c) && hz.odd(rz, c));
        if c < n1 * n2 {
            crate::matrix::lemma_split(c, n1, n2);
            assert(hx.value(rx, c) == h1.value(i1, c / n2));
            assert(hz.value(rz, c) == h2.value(i2, c % n2));
            assert(c == c1);
        } else {
            crate::matrix::lemma_split(c - n1 * n2, m1, m2);
            assert(hx.value(rx, c) == h2.value((c - n1 * n2) % m2, j2));
            assert(hz.value(rz, c) == h1.value((c - n1 * n2) / m2, j1));
            assert(c == c2);
        }
    }
    if both {
        vstd::arithmetic::div_mod::lemma_fundamental_div_mod_converse(c1, n2, j1, j2);
        vstd::arithmetic::div_mod::lemma_fundamental_div_mod_converse(c2 - n1 * n2, m2, i1, i2);
        assert(hx.contains(rx, c1));
        assert(hz.contains(rz, c1));
        assert(hx.contains(rx, c2));
        assert(hz.contains(rz, c2));
        assert(hx.odd(rx, c1));
        assert(hz.odd(rz, c1));
        assert(hx.odd(rx, c2));
        assert(hz.odd(rz, c2));
        assert(s.contains(c1));
        assert(s.contains(c2));
    }
    assert(s =~= expected);
    if both {
        assert(Set::empty().insert(c1).contains(c1));
        assert(!Set::<int>::empty().insert(c1).contains(c2));
        assert(expected.len() == 2);
    }
}

/// The hypergraph product of any two matrices is a CSS code: `Hx` and `Hz`
/// have the same number of columns and every row of `Hx` commutes with
/// every row of `Hz`.
pub proof fn lemma_hgp_is_css(h1: &CsrMatrix, h2: &CsrMatrix, hx: &CsrMatrix, hz: &CsrMatrix)
    requires
        h1.wf(),
        h2.wf(),
        hx.wf(),
        hz.wf(),
        hgp_x_of(hx, h1, h2),
        hgp_z_of(hz, h1, h2),
    ensures
        hx.cols == hz.cols,
        crate::css::css_orthogonal(hx, hz),
{
    assert forall|ix: int, iz: int| 0 <= ix < hx.rows && 0 <= iz < hz.rows implies #[trigger] crate::css::rows_commute(
        hx,
        ix,
        hz,
        iz,
    ) by {
        lemma_hgp_rows_commute(h1, h2, hx, hz, ix, iz);
    }
}

} // verus!
