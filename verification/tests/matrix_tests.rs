use ldpc::matrix::{eye, hcat, kronecker, transpose, CsrMatrix};

fn from_dense(d: &[&[u8]]) -> CsrMatrix {
    let rows = d.len();
    let cols = if rows > 0 { d[0].len() } else { 0 };
    let mut indptr = vec![0usize];
    let mut indices = Vec::new();
    let mut data = Vec::new();
    for row in d {
        for (c, &v) in row.iter().enumerate() {
            if v != 0 {
                indices.push(c);
                data.push(v);
            }
        }
        indptr.push(indices.len());
    }
    CsrMatrix { rows, cols, indptr, indices, data }
}

fn to_dense(m: &CsrMatrix) -> Vec<Vec<u8>> {
    (0..m.rows)
        .map(|r| (0..m.cols).map(|c| m.get(r, c).unwrap_or(0)).collect())
        .collect()
}

fn is_sorted_csr(m: &CsrMatrix) -> bool {
    if m.indptr.len() != m.rows + 1 || m.indptr[0] != 0 || m.indptr[m.rows] != m.indices.len() {
        return false;
    }
    for r in 0..m.rows {
        for p in m.indptr[r] + 1..m.indptr[r + 1] {
            if m.indices[p - 1] >= m.indices[p] {
                return false;
            }
        }
    }
    true
}

#[test]
fn eye_is_identity() {
    let i3 = eye(3);
    assert_eq!(to_dense(&i3), vec![vec![1, 0, 0], vec![0, 1, 0], vec![0, 0, 1]]);
    assert_eq!(i3.indptr, vec![0, 1, 2, 3]);
    assert_eq!(i3.indices, vec![0, 1, 2]);
    assert_eq!(i3.data, vec![1, 1, 1]);
}

#[test]
fn eye_of_zero_is_empty() {
    let i0 = eye(0);
    assert_eq!(i0.rows, 0);
    assert_eq!(i0.cols, 0);
    assert_eq!(i0.indptr, vec![0]);
    assert!(i0.indices.is_empty());
}

#[test]
fn transpose_reorders_entries() {
    let h = from_dense(&[&[1, 1, 0], &[0, 2, 3]]);
    let t = transpose(&h);
    assert_eq!(t.rows, 3);
    assert_eq!(t.cols, 2);
    assert_eq!(to_dense(&t), vec![vec![1, 0], vec![1, 2], vec![0, 3]]);
    assert_eq!(t.indptr, vec![0, 1, 3, 4]);
    assert_eq!(t.indices, vec![0, 0, 1, 1]);
    assert_eq!(t.data, vec![1, 1, 2, 3]);
    assert!(is_sorted_csr(&t));
}

#[test]
fn transpose_twice_is_identity() {
    let h = from_dense(&[&[1, 0, 1, 1], &[0, 1, 1, 0], &[1, 1, 0, 1]]);
    let tt = transpose(&transpose(&h));
    assert_eq!(to_dense(&tt), to_dense(&h));
    assert_eq!(tt.indptr, h.indptr);
    assert_eq!(tt.indices, h.indices);
}

#[test]
fn hcat_places_blocks_side_by_side() {
    let a = from_dense(&[&[1, 0], &[0, 1]]);
    let b = from_dense(&[&[0, 2, 0], &[3, 0, 4]]);
    let c = hcat(&a, &b);
    assert_eq!(c.rows, 2);
    assert_eq!(c.cols, 5);
    assert_eq!(to_dense(&c), vec![vec![1, 0, 0, 2, 0], vec![0, 1, 3, 0, 4]]);
    assert_eq!(c.indptr, vec![0, 2, 5]);
    assert_eq!(c.indices, vec![0, 3, 1, 2, 4]);
    assert!(is_sorted_csr(&c));
}

#[test]
fn hcat_keeps_explicit_zeros() {
    let a = CsrMatrix { rows: 1, cols: 2, indptr: vec![0, 1], indices: vec![1], data: vec![0] };
    let b = from_dense(&[&[5]]);
    let c = hcat(&a, &b);
    assert_eq!(c.indices, vec![1, 2]);
    assert_eq!(c.data, vec![0, 5]);
    assert_eq!(c.get(0, 1), Some(0));
    assert_eq!(c.get(0, 0), None);
}

#[test]
fn kronecker_of_small_matrices() {
    let a = from_dense(&[&[1, 2], &[0, 1]]);
    let b = from_dense(&[&[0, 1], &[1, 1]]);
    let k = kronecker(&a, &b);
    assert_eq!(k.rows, 4);
    assert_eq!(k.cols, 4);
    assert_eq!(
        to_dense(&k),
        vec![vec![0, 1, 0, 2], vec![1, 1, 2, 2], vec![0, 0, 0, 1], vec![0, 0, 1, 1]]
    );
    assert!(is_sorted_csr(&k));
    assert_eq!(k.indptr, vec![0, 2, 6, 7, 9]);
}

#[test]
fn kronecker_skips_stored_zeros() {
    let a = CsrMatrix { rows: 1, cols: 2, indptr: vec![0, 2], indices: vec![0, 1], data: vec![0, 1] };
    let b = eye(2);
    let k = kronecker(&a, &b);
    assert_eq!(k.rows, 2);
    assert_eq!(k.cols, 4);
    assert_eq!(k.indices, vec![2, 3]);
    assert_eq!(k.get(0, 0), None);
    assert_eq!(k.get(0, 2), Some(1));
}

#[test]
fn kronecker_with_identity_repeats_blocks() {
    let h = from_dense(&[&[1, 1, 0], &[0, 1, 1]]);
    let k = kronecker(&eye(2), &h);
    assert_eq!(
        to_dense(&k),
        vec![
            vec![1, 1, 0, 0, 0, 0],
            vec![0, 1, 1, 0, 0, 0],
            vec![0, 0, 0, 1, 1, 0],
            vec![0, 0, 0, 0, 1, 1]
        ]
    );
}

#[test]
fn get_finds_stored_values() {
    let h = from_dense(&[&[0, 7, 0], &[3, 0, 9]]);
    assert_eq!(h.get(0, 1), Some(7));
    assert_eq!(h.get(1, 2), Some(9));
    assert_eq!(h.get(1, 1), None);
    assert_eq!(h.get(5, 0), None);
    assert_eq!(h.get(0, 9), None);
}

#[test]
fn csr_matrix_clone_keeps_every_field() {
    let m = from_dense(&[&[1, 0, 1], &[0, 1, 0]]);
    let c = m.clone();
    assert_eq!(c.rows, m.rows);
    assert_eq!(c.cols, m.cols);
    assert_eq!(c.indptr, m.indptr);
    assert_eq!(c.indices, m.indices);
    assert_eq!(c.data, m.data);
    assert_eq!(to_dense(&c), vec![vec![1, 0, 1], vec![0, 1, 0]]);
}
