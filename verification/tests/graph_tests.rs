use ldpc::decoder::DecoderResult;
use ldpc::graph::{build_classical_graph, build_quantum_graph, Classic, Graph, Quantum};
use ldpc::matrix::CsrMatrix;

fn from_dense(d: &[&[u8]]) -> CsrMatrix {
    let rows = d.len();
    let cols = if rows > 0 { d[0].len() } else { 0 };
    let mut indptr = vec![0usize];
    let mut indices = Vec::new();
    let mut data = Vec::new();
    for row in d {
        for (c, &v) in row.iter().enumerate() {
            if v != 0 {
                indices.push(c);
                data.push(v);
            }
        }
        indptr.push(indices.len());
    }
    CsrMatrix { rows, cols, indptr, indices, data }
}

fn sample() -> CsrMatrix {
    // [1 1 0 1]
    // [0 1 1 0]
    // [1 0 1 1]
    from_dense(&[&[1, 1, 0, 1], &[0, 1, 1, 0], &[1, 0, 1, 1]])
}

#[test]
fn classical_graph_lists() {
    let (cn_data, cn_total, vn, e2v) = build_classical_graph(&sample());
    assert_eq!(cn_data, vec![vec![0, 1, 2], vec![3, 4], vec![5, 6, 7]]);
    assert_eq!(cn_total, cn_data);
    assert_eq!(vn, vec![vec![0, 5], vec![1, 3], vec![4, 6], vec![2, 7]]);
    assert_eq!(e2v, vec![0, 1, 3, 1, 2, 0, 2, 3]);
}

#[test]
fn quantum_graph_lists() {
    let (cn_data, cn_total, vn, e2v) = build_quantum_graph(&sample());
    assert_eq!(cn_data, vec![vec![0, 1, 2], vec![3, 4], vec![5, 6, 7]]);
    assert_eq!(cn_total, vec![vec![0, 1, 2, 8], vec![3, 4, 9], vec![5, 6, 7, 10]]);
    assert_eq!(
        vn,
        vec![vec![0, 5], vec![1, 3], vec![4, 6], vec![2, 7], vec![8], vec![9], vec![10]]
    );
    assert_eq!(e2v, vec![0, 1, 3, 1, 2, 0, 2, 3, 4, 5, 6]);
}

#[test]
fn classic_graph_new() {
    let g = Graph::<Classic>::new(sample());
    assert_eq!(g.n_data, 4);
    assert_eq!(g.n_total, 4);
    assert_eq!(g.m, 3);
    assert_eq!(g.n_edges, 8);
    assert_eq!(g.cn_max_deg_data, 3);
    assert_eq!(g.cn_max_deg_total, 3);
    assert_eq!(g.vn_max_deg, 2);
}

#[test]
fn quantum_graph_new() {
    let g = Graph::<Quantum>::new(sample());
    assert_eq!(g.n_data, 4);
    assert_eq!(g.n_total, 7);
    assert_eq!(g.m, 3);
    assert_eq!(g.n_edges, 11);
    assert_eq!(g.cn_max_deg_data, 3);
    assert_eq!(g.cn_max_deg_total, 4);
    assert_eq!(g.vn_max_deg, 2);
}

#[test]
fn incidence_is_consistent() {
    let g = Graph::<Quantum>::new(sample());
    for (e, &v) in g.edge_to_vn.iter().enumerate() {
        assert!(g.vn_edges[v].contains(&e));
        let checks = g.cn_edges_total.iter().filter(|l| l.contains(&e)).count();
        assert_eq!(checks, 1);
    }
}

#[test]
fn zero_word_satisfies_zero_syndrome() {
    let g = Graph::<Classic>::new(sample());
    assert!(g.satisfies_syndrome(&[0, 0, 0, 0], &[0, 0, 0]));
    let gq = Graph::<Quantum>::new(sample());
    assert!(gq.satisfies_syndrome(&[0; 7], &[0, 0, 0]));
}

#[test]
fn satisfies_syndrome_detects_errors() {
    let g = Graph::<Classic>::new(sample());
    // flipping bit 0 violates checks 0 and 2
    assert!(!g.satisfies_syndrome(&[1, 0, 0, 0], &[0, 0, 0]));
    assert!(g.satisfies_syndrome(&[1, 0, 0, 0], &[1, 0, 1]));
    assert!(!g.satisfies_syndrome(&[1, 0, 0, 0], &[1, 0, 0]));
}

#[test]
fn quantum_syndrome_nodes_absorb_syndrome_errors() {
    let g = Graph::<Quantum>::new(sample());
    // data error on bit 1 violates checks 0 and 1; the matching syndrome
    // errors on nodes 4 and 5 make every check even again
    assert!(!g.satisfies_syndrome(&[0, 1, 0, 0, 0, 0, 0], &[0, 0, 0]));
    assert!(g.satisfies_syndrome(&[0, 1, 0, 0, 1, 1, 0], &[0, 0, 0]));
    assert!(!g.satisfies_syndrome(&[0, 1, 0, 0, 1, 0, 0], &[0, 0, 0]));
}

#[test]
fn data_syndrome_of_error() {
    let g = Graph::<Quantum>::new(sample());
    assert_eq!(g.data_syndrome(&[1, 0, 0, 0]), vec![1, 0, 1]);
    assert_eq!(g.data_syndrome(&[0, 1, 1, 0]), vec![1, 0, 1]);
    assert_eq!(g.data_syndrome(&[0, 0, 0, 0]), vec![0, 0, 0]);
}

#[test]
fn decoder_result_starts_empty() {
    let g = Graph::<Quantum>::new(sample());
    let r = DecoderResult::new(&g);
    assert_eq!(r.estimate, vec![0; 7]);
    assert_eq!(r.iterations, 0);
    assert!(!r.success);
}

#[test]
fn record_step_stops_on_satisfied_syndrome() {
    let g = Graph::<Classic>::new(sample());
    let mut r = DecoderResult::new(&g);
    assert!(r.record_step(&g, 3, 100, vec![0, 0, 0, 0], &[0, 0, 0]));
    assert!(r.success);
    assert_eq!(r.iterations, 3);
    assert_eq!(r.estimate, vec![0, 0, 0, 0]);
}

#[test]
fn record_step_continues_on_violated_syndrome() {
    let g = Graph::<Classic>::new(sample());
    let mut r = DecoderResult::new(&g);
    assert!(!r.record_step(&g, 3, 100, vec![1, 0, 0, 0], &[0, 0, 0]));
    assert!(!r.success);
    assert_eq!(r.iterations, 0);
    assert_eq!(r.estimate, vec![0, 0, 0, 0]);
}

#[test]
fn record_step_gives_up_at_iteration_limit() {
    let g = Graph::<Classic>::new(sample());
    let mut r = DecoderResult::new(&g);
    // at the limit the estimate is recorded as a failure, even if it fits
    assert!(r.record_step(&g, 100, 100, vec![0, 0, 0, 0], &[0, 0, 0]));
    assert!(!r.success);
    assert_eq!(r.iterations, 100);
    assert!(r.record_step(&g, 100, 100, vec![1, 0, 0, 0], &[0, 0, 0]));
    assert!(!r.success);
    assert_eq!(r.estimate, vec![1, 0, 0, 0]);
}

#[test]
fn quantum_graph_extends_classical_graph() {
    let h = sample();
    let (cd, ct, cv, ce) = build_classical_graph(&h);
    let (qd, qt, qv, qe) = build_quantum_graph(&h);
    let z = h.indices.len();
    let (m, n) = (h.rows, h.cols);
    assert_eq!(qd, cd);
    for j in 0..m {
        let mut expected = ct[j].clone();
        expected.push(z + j);
        assert_eq!(qt[j], expected);
    }
    assert_eq!(qv.len(), n + m);
    assert_eq!(&qv[..n], &cv[..]);
    for j in 0..m {
        assert_eq!(qv[n + j], vec![z + j]);
    }
    let mut expected_e2v = ce.clone();
    expected_e2v.extend(n..n + m);
    assert_eq!(qe, expected_e2v);
}

#[test]
fn satisfies_syndrome_needs_only_used_nodes() {
    // the last column is empty, so no edge reaches variable node 2
    let g = Graph::<Classic>::new(from_dense(&[&[1, 1, 0], &[0, 1, 0]]));
    assert_eq!(g.n_total, 3);
    assert!(g.edge_to_vn.iter().all(|&v| v < 2));
    assert!(g.satisfies_syndrome(&[1, 0], &[1, 0]));
    assert!(!g.satisfies_syndrome(&[1, 0], &[0, 0]));
    assert!(g.satisfies_syndrome(&[0, 1], &[1, 1]));
}
