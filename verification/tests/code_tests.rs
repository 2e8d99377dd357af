use ldpc::css::{check_css, css_3qubit, css_steane_code, CssCode, CssError, CssGraphs};
use ldpc::hgp::{hgp, hgp_from_random};
use ldpc::graph::{Graph, Quantum};
use ldpc::matrix::CsrMatrix;
use ldpc::random_ldpc::{gen_ldpc, ldpc_from_sockets};

fn from_dense(d: &[&[u8]]) -> CsrMatrix {
    let rows = d.len();
    let cols = if rows > 0 { d[0].len() } else { 0 };
    let mut indptr = vec![0usize];
    let mut indices = Vec::new();
    let mut data = Vec::new();
    for row in d {
        for (c, &v) in row.iter().enumerate() {
            if v != 0 {
                indices.push(c);
                data.push(v);
            }
        }
        indptr.push(indices.len());
    }
    CsrMatrix { rows, cols, indptr, indices, data }
}

fn to_dense(m: &CsrMatrix) -> Vec<Vec<u8>> {
    (0..m.rows)
        .map(|r| (0..m.cols).map(|c| m.get(r, c).unwrap_or(0)).collect())
        .collect()
}

#[test]
fn three_qubit_code_matrices() {
    let (hx, hz) = css_3qubit();
    assert_eq!(to_dense(&hx), vec![vec![1, 1, 0], vec![0, 1, 1]]);
    assert_eq!(to_dense(&hz), vec![vec![1, 1, 1]]);
}

#[test]
fn three_qubit_code_is_css() {
    let (hx, hz) = css_3qubit();
    assert_eq!(check_css(&hx, &hz), Ok(()));
}

#[test]
fn steane_code_is_hamming_pair_and_css() {
    let (hx, hz) = css_steane_code();
    let expected = vec![
        vec![1, 0, 0, 1, 0, 1, 1],
        vec![0, 1, 0, 1, 1, 0, 1],
        vec![0, 0, 1, 0, 1, 1, 1],
    ];
    assert_eq!(to_dense(&hx), expected);
    assert_eq!(to_dense(&hz), expected);
    assert_eq!(check_css(&hx, &hz), Ok(()));
}

#[test]
fn check_css_reports_column_mismatch() {
    let hx = from_dense(&[&[1, 1]]);
    let hz = from_dense(&[&[1, 1, 1]]);
    assert_eq!(
        check_css(&hx, &hz),
        Err(CssError::ColumnMismatch { hx_cols: 2, hz_cols: 3 })
    );
}

#[test]
fn check_css_reports_first_anticommuting_pair() {
    let hx = from_dense(&[&[1, 1, 0, 0], &[1, 0, 1, 0]]);
    let hz = from_dense(&[&[1, 1, 0, 0], &[0, 0, 1, 1], &[1, 0, 0, 0]]);
    // row 0 of hx: overlaps 2, 0, 1 -> first odd pair is (0, 2)
    assert_eq!(
        check_css(&hx, &hz),
        Err(CssError::Anticommute { row_x: 0, row_z: 2 })
    );
}

#[test]
fn check_css_single_shared_column_anticommutes() {
    // a single shared column: odd overlap
    let hx = from_dense(&[&[0, 1, 1]]);
    let hz = from_dense(&[&[1, 1, 0]]);
    assert_eq!(check_css(&hx, &hz), Err(CssError::Anticommute { row_x: 0, row_z: 0 }));
}

#[test]
fn css_code_new_accepts_and_rejects() {
    let (hx, hz) = css_3qubit();
    let code = CssCode::new(hx, hz).expect("valid code");
    assert_eq!(code.hx.rows, 2);
    assert_eq!(code.hz.rows, 1);
    let bad = CssCode::new(from_dense(&[&[1, 0, 0]]), from_dense(&[&[1, 1, 1]]));
    assert!(matches!(bad, Err(CssError::Anticommute { row_x: 0, row_z: 0 })));
}

#[test]
fn css_graphs_of_steane_code() {
    let (hx, hz) = css_steane_code();
    let code = CssCode::new(hx, hz).unwrap();
    let graphs = CssGraphs::new(&code);
    assert_eq!(graphs.x.n_data, 7);
    assert_eq!(graphs.x.m, 3);
    assert_eq!(graphs.x.n_total, 10);
    assert_eq!(graphs.z.n_edges, 12 + 3);
    assert_eq!(graphs.x.cn_max_deg_data, 4);
    assert_eq!(graphs.x.cn_max_deg_total, 5);
}

#[test]
fn hgp_of_repetition_code() {
    // H = [1 1 0; 0 1 1], m = 2, n = 3
    let h = from_dense(&[&[1, 1, 0], &[0, 1, 1]]);
    let (hx, hz) = hgp(&h, &h);
    assert_eq!((hx.rows, hx.cols), (6, 13));
    assert_eq!((hz.rows, hz.cols), (6, 13));
    assert_eq!(check_css(&hx, &hz), Ok(()));
    // Hx row 0 = (i1 = 0, j2 = 0): H1[0][j1] at columns j1 * 3 + 0, and
    // H2[i2][0] at columns 9 + 0 * 2 + i2
    assert_eq!(to_dense(&hx)[0], vec![1, 0, 0, 1, 0, 0, 0, 0, 0, 1, 0, 0, 0]);
    // Hz row 0 = (j1 = 0, i2 = 0): H2[0][j2] at columns 0 * 3 + j2, and
    // H1[i1][0] at columns 9 + i1 * 2 + 0
    assert_eq!(to_dense(&hz)[0], vec![1, 1, 0, 0, 0, 0, 0, 0, 0, 1, 0, 0, 0]);
}

#[test]
fn hgp_of_different_matrices_is_css() {
    let h1 = from_dense(&[&[1, 1, 1, 0], &[0, 1, 0, 1], &[1, 0, 1, 1]]);
    let h2 = from_dense(&[&[1, 0, 1], &[1, 1, 0]]);
    let (hx, hz) = hgp(&h1, &h2);
    assert_eq!((hx.rows, hx.cols), (3 * 3, 4 * 3 + 3 * 2));
    assert_eq!((hz.rows, hz.cols), (4 * 2, 4 * 3 + 3 * 2));
    assert_eq!(check_css(&hx, &hz), Ok(()));
}

#[test]
fn hgp_from_random_is_css() {
    let (hx, hz) = hgp_from_random(12, 3, 6);
    // seed: 6 x 12
    assert_eq!((hx.rows, hx.cols), (6 * 12, 12 * 12 + 6 * 6));
    assert_eq!((hz.rows, hz.cols), (12 * 6, 12 * 12 + 6 * 6));
    assert_eq!(check_css(&hx, &hz), Ok(()));
}

#[test]
fn gen_ldpc_shape_and_degrees() {
    let (n, dv, dc) = (60, 3, 6);
    let h = gen_ldpc(n, dv, dc);
    assert_eq!(h.rows, 30);
    assert_eq!(h.cols, 60);
    assert!(h.data.iter().all(|&v| v == 1));
    for r in 0..h.rows {
        assert!(h.indptr[r + 1] - h.indptr[r] <= dc);
    }
    let mut col_deg = vec![0usize; n];
    for &c in &h.indices {
        col_deg[c] += 1;
    }
    assert!(col_deg.iter().all(|&d| d <= dv));
    assert!(h.indices.len() <= n * dv);
}

#[test]
fn ldpc_from_sockets_merges_repeated_pairs() {
    // sockets: (v, c) = (0,0), (0,1), (1,0), (1,0), (2,1)
    let vn = vec![0, 0, 1, 1, 2];
    let cn = vec![0, 1, 0, 0, 1];
    let h = ldpc_from_sockets(3, 2, &vn, &cn);
    assert_eq!(to_dense(&h), vec![vec![1, 1, 0], vec![1, 0, 1]]);
    assert_eq!(h.indices.len(), 4);
}

#[test]
fn gen_ldpc_pairs_sockets_randomly() {
    // Pairing socket i with check socket i (no permutation) would join all
    // sockets of a variable to one check, leaving a single one per column.
    let h = gen_ldpc(60, 3, 6);
    assert!(h.indices.len() > 120);
    let h2 = gen_ldpc(60, 3, 6);
    assert!(h.indices != h2.indices || h.indptr != h2.indptr);
}

#[test]
fn check_css_ignores_stored_zero_values() {
    // Hx stores an explicit 0, so Hx * Hz^T = 0 (mod 2)
    let hx = CsrMatrix { rows: 1, cols: 1, indptr: vec![0, 1], indices: vec![0], data: vec![0] };
    let hz = CsrMatrix { rows: 1, cols: 1, indptr: vec![0, 1], indices: vec![0], data: vec![1] };
    assert_eq!(check_css(&hx, &hz), Ok(()));
    assert!(CssCode::new(hx, hz).is_ok());
    // an even stored value is zero mod 2 as well
    let hx2 = CsrMatrix { rows: 1, cols: 1, indptr: vec![0, 1], indices: vec![0], data: vec![2] };
    let hz2 = CsrMatrix { rows: 1, cols: 1, indptr: vec![0, 1], indices: vec![0], data: vec![1] };
    assert_eq!(check_css(&hx2, &hz2), Ok(()));
    // an odd stored value counts
    let hx3 = CsrMatrix { rows: 1, cols: 1, indptr: vec![0, 1], indices: vec![0], data: vec![3] };
    let hz3 = CsrMatrix { rows: 1, cols: 1, indptr: vec![0, 1], indices: vec![0], data: vec![1] };
    assert_eq!(check_css(&hx3, &hz3), Err(CssError::Anticommute { row_x: 0, row_z: 0 }));
}

#[test]
fn check_css_counts_only_odd_overlaps() {
    // rows share columns 0 and 1, but column 1 of hz stores 0: one odd overlap
    let hx = from_dense(&[&[1, 1, 0]]);
    let hz = CsrMatrix {
        rows: 1,
        cols: 3,
        indptr: vec![0, 2],
        indices: vec![0, 1],
        data: vec![1, 0],
    };
    assert_eq!(check_css(&hx, &hz), Err(CssError::Anticommute { row_x: 0, row_z: 0 }));
}

#[test]
fn hgp_with_stored_zero_is_css() {
    let h1 = CsrMatrix {
        rows: 2,
        cols: 3,
        indptr: vec![0, 3, 5],
        indices: vec![0, 1, 2, 1, 2],
        data: vec![1, 0, 1, 1, 1],
    };
    let h2 = from_dense(&[&[1, 1]]);
    let (hx, hz) = hgp(&h1, &h2);
    assert_eq!((hx.rows, hx.cols), (2 * 2, 3 * 2 + 2 * 1));
    assert_eq!((hz.rows, hz.cols), (3 * 1, 3 * 2 + 2 * 1));
    assert_eq!(check_css(&hx, &hz), Ok(()));
}

#[test]
fn css_graphs_equal_graphs_of_each_matrix() {
    let (hx, hz) = css_steane_code();
    let code = CssCode::new(hx.clone(), hz.clone()).unwrap();
    let graphs = CssGraphs::new(&code);
    let gx = Graph::<Quantum>::new(hx);
    let gz = Graph::<Quantum>::new(hz);
    for (a, b) in [(&graphs.x, &gx), (&graphs.z, &gz)] {
        assert_eq!(a.n_data, b.n_data);
        assert_eq!(a.n_total, b.n_total);
        assert_eq!(a.m, b.m);
        assert_eq!(a.n_edges, b.n_edges);
        assert_eq!(a.cn_edges_data, b.cn_edges_data);
        assert_eq!(a.cn_edges_total, b.cn_edges_total);
        assert_eq!(a.vn_edges, b.vn_edges);
        assert_eq!(a.edge_to_vn, b.edge_to_vn);
        assert_eq!(a.cn_max_deg_data, b.cn_max_deg_data);
        assert_eq!(a.cn_max_deg_total, b.cn_max_deg_total);
        assert_eq!(a.vn_max_deg, b.vn_max_deg);
    }
}
