//! Tanner graphs of parity-check matrices, for classical decoding and for
//! quantum decoding with noisy syndromes (one extra variable node per check).

use vstd::prelude::*;
use std::marker::PhantomData;
use crate::matrix::CsrMatrix;

verus! {

/// The decoding mode a graph is built for.
pub trait Mode {
    /// A short human-readable name of the mode.
    fn name() -> &'static str;
}

/// Classical decoding: the variable nodes are the code bits.
pub struct Classic;

/// Quantum decoding with syndrome errors: besides the data qubits, each
/// check has a variable node for the error of its syndrome measurement.
pub struct Quantum;

impl Mode for Classic {
    fn name() -> (s: &'static str)
        ensures
            s@ == "Classic"@,
    {
        "Classic"
    }
}

impl Mode for Quantum {
    fn name() -> (s: &'static str)
        ensures
            s@ == "Quantum"@,
    {
        "Quantum"
    }
}

/// The edges of row `r` of `h`: edge ids are the storage positions of the
/// row's entries.
pub open spec fn row_edges(h: &CsrMatrix, r: int) -> Seq<usize> {
    Seq::new((h.indptr@[r + 1] - h.indptr@[r]) as nat, |k: int| (h.indptr@[r] + k) as usize)
}

/// `v` lists, in increasing order, exactly the edges before `bound`
/// (storage positions of `h`) whose column is `c`.
pub open spec fn column_edges_upto(h: &CsrMatrix, c: int, v: Seq<usize>, bound: int) -> bool {
    &&& forall|k1: int, k2: int| 0 <= k1 < k2 < v.len() ==> #[trigger] v[k1] < #[trigger] v[k2]
    &&& forall|k: int| 0 <= k < v.len() ==> #[trigger] v[k] < bound && h.indices@[v[k] as int] == c
    &&& forall|p: usize| p < bound && h.indices@[p as int] == c ==> #[trigger] v.contains(p)
}

/// `v` lists, in increasing order, exactly the edges (storage positions of
/// `h`) whose column is `c`.
pub open spec fn column_edges(h: &CsrMatrix, c: int, v: Seq<usize>) -> bool {
    column_edges_upto(h, c, v, h.nnz())
}

/// The check-to-edge lists, variable-to-edge lists and edge-to-variable map
/// of the Tanner graph of `h`: edge `e` is the entry stored at position `e`.
pub open spec fn classical_graph_of(
    h: &CsrMatrix,
    cn_edges: Seq<Vec<usize>>,
    vn_edges: Seq<Vec<usize>>,
    edge_to_vn: Seq<usize>,
) -> bool {
    &&& cn_edges.len() == h.rows
    &&& forall|r: int| 0 <= r < h.rows ==> (#[trigger] cn_edges[r])@ == row_edges(h, r)
    &&& vn_edges.len() == h.cols
    &&& forall|c: int| 0 <= c < h.cols ==> column_edges(h, c, (#[trigger] vn_edges[c])@)
    &&& edge_to_vn == h.indices@
}

/// The Tanner graph of `h` extended by one variable node `h.cols + j` per
/// check `j`, joined to that check only by edge `h.nnz() + j`.
pub open spec fn quantum_graph_of(
    h: &CsrMatrix,
    cn_edges_data: Seq<Vec<usize>>,
    cn_edges_total: Seq<Vec<usize>>,
    vn_edges: Seq<Vec<usize>>,
    edge_to_vn: Seq<usize>,
) -> bool {
    &&& cn_edges_data.len() == h.rows
    &&& forall|r: int| 0 <= r < h.rows ==> (#[trigger] cn_edges_data[r])@ == row_edges(h, r)
    &&& cn_edges_total.len() == h.rows
    &&& forall|r: int|
        0 <= r < h.rows ==> (#[trigger] cn_edges_total[r])@ == row_edges(h, r).push(
            (h.nnz() + r) as usize,
        )
    &&& vn_edges.len() == h.cols + h.rows
    &&& forall|c: int| 0 <= c < h.cols ==> column_edges(h, c, (#[trigger] vn_edges[c])@)
    &&& forall|j: int|
        0 <= j < h.rows ==> (#[trigger] vn_edges[h.cols + j])@ == seq![(h.nnz() + j) as usize]
    &&& edge_to_vn == h.indices@ + Seq::new(h.rows as nat, |j: int| (h.cols + j) as usize)
}

/// A Tanner graph, with the adjacency lists used by belief-propagation
/// decoding.
pub struct Graph<M: Mode> {
    /// Number of data variable nodes (code bits or qubits).
    pub n_data: usize,
    /// Number of variable nodes: `n_data` for classical decoding,
    /// `n_data + m` with syndrome-error nodes for quantum decoding.
    pub n_total: usize,
    /// Number of check nodes.
    pub m: usize,
    /// Number of edges.
    pub n_edges: usize,
    /// For each check, its edges to data variable nodes.
    pub cn_edges_data: Vec<Vec<usize>>,
    /// For each check, its edges to all variable nodes.
    pub cn_edges_total: Vec<Vec<usize>>,
    /// For each variable node, its edges.
    pub vn_edges: Vec<Vec<usize>>,
    /// Largest number of data edges of a check.
    pub cn_max_deg_data: usize,
    /// Largest number of edges of a check.
    pub cn_max_deg_total: usize,
    /// Largest number of edges of a variable node.
    pub vn_max_deg: usize,
    /// The variable node of each edge.
    pub edge_to_vn: Vec<usize>,
    /// Marks the decoding mode.
    pub _mode: PhantomData<M>,
}

/// The data part of the Tanner graph of `h`, with `n_vn` variable-node
/// lists of which those past `h.cols` stay empty.
fn build_data_edges(h: &CsrMatrix, n_vn: usize) -> (res: (Vec<Vec<usize>>, Vec<Vec<usize>>, Vec<usize>))
    requires
        h.wf(),
        n_vn >= h.cols,
    ensures
        res.0@.len() == h.rows,
        forall|r: int| 0 <= r < h.rows ==> (#[trigger] res.0@[r])@ == row_edges(h, r),
        res.1@.len() == n_vn,
        forall|c: int| 0 <= c < h.cols ==> column_edges(h, c, (#[trigger] res.1@[c])@),
        forall|c: int| h.cols <= c < n_vn ==> (#[trigger] res.1@[c])@ == Seq::<usize>::empty(),
        res.2@ == h.indices@,
{
    let rows = h.rows;
    let _ = h.indptr.len();
    let mut cn_edges: Vec<Vec<usize>> = Vec::new();
    for r in 0..rows
        invariant
            cn_edges@.len() == r,
            forall|i: int| 0 <= i < r ==> (#[trigger] cn_edges@[i])@ == Seq::<usize>::empty(),
    {
        cn_edges.push(Vec::new());
    }
    let mut vn_edges: Vec<Vec<usize>> = Vec::new();
    for c in 0..n_vn
        invariant
            vn_edges@.len() == c,
            forall|i: int| 0 <= i < c ==> (#[trigger] vn_edges@[i])@ == Seq::<usize>::empty(),
    {
        vn_edges.push(Vec::new());
    }
    let mut edge_to_vn: Vec<usize> = Vec::new();
    let mut edge_id: usize = 0;
    assert forall|c: int| 0 <= c < n_vn implies column_edges_upto(h, c, (#[trigger] vn_edges@[c])@, 0) by {}
    for row in 0..rows
        invariant
            h.wf(),
            rows == h.rows,
            n_vn >= h.cols,
            edge_id == h.indptr@[row as int],
            cn_edges@.len() == h.rows,
            forall|i: int| 0 <= i < row ==> (#[trigger] cn_edges@[i])@ == row_edges(h, i),
            forall|i: int| row <= i < h.rows ==> (#[trigger] cn_edges@[i])@ == Seq::<usize>::empty(),
            vn_edges@.len() == n_vn,
            forall|c: int| 0 <= c < n_vn ==> column_edges_upto(h, c, (#[trigger] vn_edges@[c])@, edge_id as int),
            edge_to_vn@ == h.indices@.take(edge_id as int),
    {
        assert(h.indptr@[row as int] <= h.indptr@[row + 1]);
        assert(h.indptr@[row + 1] <= h.indptr@[h.rows as int]);
        let start = h.indptr[row];
        let end = h.indptr[row + 1];
        for idx in start..end
            invariant
                h.wf(),
                rows == h.rows,
                n_vn >= h.cols,
                0 <= row < h.rows,
                start == h.indptr@[row as int],
                end == h.indptr@[row + 1],
                end <= h.nnz(),
                edge_id == idx,
                cn_edges@.len() == h.rows,
                forall|i: int| 0 <= i < row ==> (#[trigger] cn_edges@[i])@ == row_edges(h, i),
                forall|i: int| row < i < h.rows ==> (#[trigger] cn_edges@[i])@ == Seq::<usize>::empty(),
                cn_edges@[row as int]@ == Seq::new((idx - start) as nat, |k: int| (start + k) as usize),
                vn_edges@.len() == n_vn,
                forall|c: int| 0 <= c < n_vn ==> column_edges_upto(h, c, (#[trigger] vn_edges@[c])@, edge_id as int),
                edge_to_vn@ == h.indices@.take(edge_id as int),
        {
            let col = h.indices[idx];
            assert(col < h.cols);
            let ghost old_vn = vn_edges@;
            let ghost old_cn = cn_edges@;
            cn_edges[row].push(edge_id);
            vn_edges[col].push(edge_id);
            edge_to_vn.push(col);
            proof {
                assert forall|c: int| 0 <= c < n_vn implies column_edges_upto(h, c, (#[trigger] vn_edges@[c])@, edge_id + 1) by {
                    let v = vn_edges@[c]@;
                    let ov = old_vn[c]@;
                    assert(column_edges_upto(h, c, ov, edge_id as int));
                    if c == col {
                        assert(v == ov.push(edge_id));
                        assert forall|p: usize| p < edge_id + 1 && h.indices@[p as int] == c implies #[trigger] v.contains(p) by {
                            if p == edge_id {
                                assert(v[v.len() - 1] == p);
                            } else {
                                assert(ov.contains(p));
                                let k = choose|k: int| 0 <= k < ov.len() && ov[k] == p;
                                assert(v[k] == ov[k]);
                            }
                        }
                    } else {
                        assert(v == ov);
                    }
                }
                assert(edge_to_vn@ =~= h.indices@.take(edge_id + 1));
                assert(cn_edges@[row as int]@ =~= Seq::new((idx + 1 - start) as nat, |k: int| (start + k) as usize));
                assert forall|i: int| 0 <= i < row implies (#[trigger] cn_edges@[i])@ == row_edges(h, i) by {
                    assert(cn_edges@[i] == old_cn[i]);
                }
                assert forall|i: int| row < i < h.rows implies (#[trigger] cn_edges@[i])@ == Seq::<usize>::empty() by {
                    assert(cn_edges@[i] == old_cn[i]);
                }
            }
            edge_id += 1;
        }
        assert(cn_edges@[row as int]@ =~= row_edges(h, row as int));
    }
    assert(edge_to_vn@ =~= h.indices@);
    assert forall|c: int| h.cols <= c < n_vn implies (#[trigger] vn_edges@[c])@ == Seq::<usize>::empty() by {
        let v = vn_edges@[c]@;
        if v.len() > 0 {
            assert(h.indices@[v[0] as int] < h.cols);
        }
    }
    (cn_edges, vn_edges, edge_to_vn)
}

/// A copy of a list of edge lists.
fn clone_lists(v: &Vec<Vec<usize>>) -> (res: Vec<Vec<usize>>)
    ensures
        res@.len() == v@.len(),
        forall|i: int| 0 <= i < v@.len() ==> (#[trigger] res@[i])@ == v@[i]@,
{
    let mut res: Vec<Vec<usize>> = Vec::new();
    for i in 0..v.len()
        invariant
            res@.len() == i,
            i <= v@.len(),
            forall|k: int| 0 <= k < i ==> (#[trigger] res@[k])@ == v@[k]@,
    {
        let inner = v[i].clone();
        assert(inner@ =~= v@[i as int]@);
        res.push(inner);
    }
    res
}

/// `x` is the largest length of the lists in `v`.
pub open spec fn is_max_len(v: Seq<Vec<usize>>, x: usize) -> bool {
    &&& forall|i: int| 0 <= i < v.len() ==> (#[trigger] v[i])@.len() <= x
    &&& exists|i: int| 0 <= i < v.len() && (#[trigger] v[i])@.len() == x
}

/// The largest length of the (nonempty) list of lists `v`.
fn max_len(v: &Vec<Vec<usize>>) -> (res: usize)
    requires
        v@.len() > 0,
    ensures
        is_max_len(v@, res),
{
    let mut best = v[0].len();
    let mut i: usize = 1;
    while i < v.len()
        invariant
            1 <= i <= v@.len(),
            forall|k: int| 0 <= k < i ==> (#[trigger] v@[k])@.len() <= best,
            exists|k: int| 0 <= k < i && (#[trigger] v@[k])@.len() == best,
        decreases v@.len() - i,
    {
        if v[i].len() > best {
            best = v[i].len();
        }
        i += 1;
    }
    best
}

/// The Tanner graph of `h`: check-node edge lists (data and total, equal
/// here), variable-node edge lists and the variable node of each edge.
pub fn build_classical_graph(h_csr: &CsrMatrix) -> (res: (
    Vec<Vec<usize>>,
    Vec<Vec<usize>>,
    Vec<Vec<usize>>,
    Vec<usize>,
))
    requires
        h_csr.wf(),
    ensures
        classical_graph_of(h_csr, res.0@, res.2@, res.3@),
        res.1@.len() == res.0@.len(),
        forall|r: int| 0 <= r < res.0@.len() ==> (#[trigger] res.1@[r])@ == res.0@[r]@,
{
    let (cn_edges_data, vn_edges, edge_to_vn) = build_data_edges(h_csr, h_csr.cols);
    let cn_edges_total = clone_lists(&cn_edges_data);
    (cn_edges_data, cn_edges_total, vn_edges, edge_to_vn)
}

/// The Tanner graph of `h` extended by one syndrome-error variable node per
/// check (see `quantum_graph_of`).
pub fn build_quantum_graph(h_csr: &CsrMatrix) -> (res: (
    Vec<Vec<usize>>,
    Vec<Vec<usize>>,
    Vec<Vec<usize>>,
    Vec<usize>,
))
    requires
        h_csr.wf(),
        h_csr.cols + h_csr.rows <= usize::MAX,
        h_csr.nnz() + h_csr.rows <= usize::MAX,
    ensures
        quantum_graph_of(h_csr, res.0@, res.1@, res.2@, res.3@),
{
    let rows = h_csr.rows;
    let cols = h_csr.cols;
    let (cn_edges_data, mut vn_edges, mut edge_to_vn) = build_data_edges(h_csr, cols + rows);
    let n_edges_data = h_csr.indices.len();
    let mut cn_edges_total: Vec<Vec<usize>> = Vec::new();
    let mut edge_id = n_edges_data;
    for j in 0..rows
        invariant
            h_csr.wf(),
            rows == h_csr.rows,
            cols == h_csr.cols,
            n_edges_data == h_csr.nnz(),
            h_csr.nnz() + h_csr.rows <= usize::MAX,
            h_csr.cols + h_csr.rows <= usize::MAX,
            edge_id == n_edges_data + j,
            cn_edges_data@.len() == rows,
            forall|r: int| 0 <= r < rows ==> (#[trigger] cn_edges_data@[r])@ == row_edges(h_csr, r),
            cn_edges_total@.len() == j,
            forall|r: int|
                0 <= r < j ==> (#[trigger] cn_edges_total@[r])@ == row_edges(h_csr, r).push(
                    (h_csr.nnz() + r) as usize,
                ),
            vn_edges@.len() == cols + rows,
            forall|c: int| 0 <= c < cols ==> column_edges(h_csr, c, (#[trigger] vn_edges@[c])@),
            forall|i: int|
                0 <= i < j ==> (#[trigger] vn_edges@[cols + i])@ == seq![(h_csr.nnz() + i) as usize],
            forall|i: int| j <= i < rows ==> (#[trigger] vn_edges@[cols + i])@ == Seq::<usize>::empty(),
            edge_to_vn@ == h_csr.indices@ + Seq::new(j as nat, |i: int| (cols + i) as usize),
    {
        let vn = cols + j;
        let mut edges = cn_edges_data[j].clone();
        assert(edges@ =~= cn_edges_data@[j as int]@);
        edges.push(edge_id);
        cn_edges_total.push(edges);
        let ghost old_vn = vn_edges@;
        vn_edges[vn].push(edge_id);
        edge_to_vn.push(vn);
        proof {
            assert(vn_edges@[cols + j]@ =~= seq![(h_csr.nnz() + j) as usize]);
            assert forall|c: int| 0 <= c < cols implies column_edges(h_csr, c, (#[trigger] vn_edges@[c])@) by {
                assert(vn_edges@[c] == old_vn[c]);
            }
            assert forall|i: int| 0 <= i < j implies (#[trigger] vn_edges@[cols + i])@ == seq![(h_csr.nnz() + i) as usize] by {
                assert(vn_edges@[cols + i] == old_vn[cols + i]);
            }
            assert forall|i: int| j + 1 <= i < rows implies (#[trigger] vn_edges@[cols + i])@ == Seq::<usize>::empty() by {
                assert(vn_edges@[cols + i] == old_vn[cols + i]);
            }
            assert(edge_to_vn@ =~= h_csr.indices@ + Seq::new((j + 1) as nat, |i: int| (cols + i) as usize));
        }
        edge_id += 1;
    }
    (cn_edges_data, cn_edges_total, vn_edges, edge_to_vn)
}

/// Every position before `nnz` lies in some row at or after `k`.
proof fn lemma_row_exists(m: &CsrMatrix, p: int, k: int)
    requires
        m.wf(),
        0 <= k <= m.rows,
        m.indptr@[k] <= p < m.nnz(),
    ensures
        exists|r: int| k <= r < m.rows && m.in_row(r, p),
    decreases m.rows - k,
{
    if k == m.rows {
    } else if p < m.indptr@[k + 1] {
        assert(m.in_row(k, p));
    } else {
        lemma_row_exists(m, p, k + 1);
    }
}

/// The value of the bits on the variable nodes of `edges`.
pub open spec fn edge_bits(edge_to_vn: Seq<usize>, bits: Seq<u8>, edges: Seq<usize>) -> Seq<u8> {
    edges.map_values(|e: usize| bits[edge_to_vn[e as int] as int])
}

/// Exclusive or of all values in `s`.
pub open spec fn xor_all(s: Seq<u8>) -> u8
    decreases s.len(),
{
    if s.len() == 0 {
        0
    } else {
        xor_all(s.drop_last()) ^ s.last()
    }
}

impl<M: Mode> Graph<M> {
    /// The adjacency lists are consistent and in bounds.
    pub open spec fn wf(&self) -> bool {
        &&& self.n_data <= self.n_total
        &&& self.cn_edges_data@.len() == self.m
        &&& self.cn_edges_total@.len() == self.m
        &&& self.vn_edges@.len() == self.n_total
        &&& self.edge_to_vn@.len() == self.n_edges
        &&& forall|e: int| 0 <= e < self.n_edges ==> #[trigger] self.edge_to_vn@[e] < self.n_total
        &&& forall|j: int, k: int|
            0 <= j < self.m && 0 <= k < self.cn_edges_total@[j]@.len() ==> #[trigger] self.cn_edges_total@[j]@[k]
                < self.n_edges
        &&& forall|j: int, k: int|
            0 <= j < self.m && 0 <= k < self.cn_edges_data@[j]@.len() ==> {
                let e = #[trigger] self.cn_edges_data@[j]@[k];
                e < self.n_edges && self.edge_to_vn@[e as int] < self.n_data
            }
        &&& forall|v: int, k: int|
            0 <= v < self.n_total && 0 <= k < self.vn_edges@[v]@.len() ==> #[trigger] self.vn_edges@[v]@[k]
                < self.n_edges
    }

    /// Edge `e` is listed by some check.
    pub open spec fn edge_on_a_check(&self, e: int) -> bool {
        exists|j: int|
            #![trigger self.cn_edges_total@[j]]
            0 <= j < self.m && self.cn_edges_total@[j]@.contains(e as usize)
    }

    /// Each variable node's edge list holds exactly the edges mapped to it,
    /// and each edge belongs to exactly one check.
    pub open spec fn incidence_consistent(&self) -> bool {
        &&& forall|v: int, e: usize|
            0 <= v < self.n_total && e < self.n_edges ==> (#[trigger] self.vn_edges@[v]@.contains(e)
                <==> self.edge_to_vn@[e as int] == v)
        &&& forall|e: int| 0 <= e < self.n_edges ==> #[trigger] self.edge_on_a_check(e)
        &&& forall|e: usize, j1: int, j2: int|
            e < self.n_edges && 0 <= j1 < self.m && 0 <= j2 < self.m
                && #[trigger] self.cn_edges_total@[j1]@.contains(e)
                && #[trigger] self.cn_edges_total@[j2]@.contains(e) ==> j1 == j2
    }

    /// The parity of `bits` over the variable nodes of check `j`.
    pub open spec fn check_parity(&self, bits: Seq<u8>, j: int) -> u8 {
        xor_all(edge_bits(self.edge_to_vn@, bits, self.cn_edges_total@[j]@))
    }

    /// `bits` reproduces the syndrome `syn` on every check.
    pub open spec fn satisfies(&self, bits: Seq<u8>, syn: Seq<u8>) -> bool {
        forall|j: int| 0 <= j < self.m ==> #[trigger] self.check_parity(bits, j) == syn[j]
    }

    /// The parity of `bits` over the data variable nodes of check `j`.
    pub open spec fn data_parity(&self, bits: Seq<u8>, j: int) -> u8 {
        xor_all(edge_bits(self.edge_to_vn@, bits, self.cn_edges_data@[j]@))
    }

    /// Whether the hard decisions `vn_quant` reproduce the syndrome `syn` on
    /// every check.
    pub fn satisfies_syndrome(&self, vn_quant: &[u8], syn: &[u8]) -> (ok: bool)
        requires
            self.wf(),
            forall|e: int| 0 <= e < self.n_edges ==> #[trigger] self.edge_to_vn@[e] < vn_quant@.len(),
            syn@.len() >= self.m,
        ensures
            ok == self.satisfies(vn_quant@, syn@),
    {
        let m = self.cn_edges_total.len();
        for j in 0..m
            invariant
                self.wf(),
                m == self.m,
                forall|e: int| 0 <= e < self.n_edges ==> #[trigger] self.edge_to_vn@[e] < vn_quant@.len(),
                syn@.len() >= self.m,
                forall|i: int| 0 <= i < j ==> #[trigger] self.check_parity(vn_quant@, i) == syn@[i],
        {
            let edges = &self.cn_edges_total[j];
            let mut parity: u8 = 0;
            for k in 0..edges.len()
                invariant
                    self.wf(),
                    0 <= j < self.m,
                    edges@ == self.cn_edges_total@[j as int]@,
                    forall|e: int| 0 <= e < self.n_edges ==> #[trigger] self.edge_to_vn@[e] < vn_quant@.len(),
                    parity == xor_all(edge_bits(self.edge_to_vn@, vn_quant@, edges@.take(k as int))),
            {
                let e = edges[k];
                assert(self.cn_edges_total@[j as int]@[k as int] < self.n_edges);
                let vn = self.edge_to_vn[e];
                parity ^= vn_quant[vn];
                assert(edge_bits(self.edge_to_vn@, vn_quant@, edges@.take(k + 1)).drop_last()
                    =~= edge_bits(self.edge_to_vn@, vn_quant@, edges@.take(k as int)));
            }
            assert(edges@.take(edges@.len() as int) =~= edges@);
            assert(parity == self.check_parity(vn_quant@, j as int));
            if parity != syn[j] {
                return false;
            }
        }
        true
    }

    /// The syndrome of the error pattern `error` on the data variable nodes:
    /// for each check, the parity of the error over its data edges.
    pub fn data_syndrome(&self, error: &[u8]) -> (syndrome: Vec<u8>)
        requires
            self.wf(),
            error@.len() >= self.n_data,
        ensures
            syndrome@.len() == self.m,
            forall|j: int| 0 <= j < self.m ==> #[trigger] syndrome@[j] == self.data_parity(error@, j),
    {
        let m = self.cn_edges_data.len();
        let mut syndrome: Vec<u8> = Vec::new();
        for j in 0..m
            invariant
                self.wf(),
                m == self.m,
                error@.len() >= self.n_data,
                syndrome@.len() == j,
                forall|i: int| 0 <= i < j ==> #[trigger] syndrome@[i] == self.data_parity(error@, i),
        {
            let edges = &self.cn_edges_data[j];
            let mut parity: u8 = 0;
            for k in 0..edges.len()
                invariant
                    self.wf(),
                    0 <= j < self.m,
                    edges@ == self.cn_edges_data@[j as int]@,
                    error@.len() >= self.n_data,
                    parity == xor_all(edge_bits(self.edge_to_vn@, error@, edges@.take(k as int))),
            {
                let e = edges[k];
                assert(self.cn_edges_data@[j as int]@[k as int] < self.n_edges);
                let vn = self.edge_to_vn[e];
                parity ^= error[vn];
                assert(edge_bits(self.edge_to_vn@, error@, edges@.take(k + 1)).drop_last()
                    =~= edge_bits(self.edge_to_vn@, error@, edges@.take(k as int)));
            }
            assert(edges@.take(edges@.len() as int) =~= edges@);
            syndrome.push(parity);
        }
        syndrome
    }
}

impl Graph<Classic> {
    /// This graph is the Tanner graph of `h` for classical decoding.
    pub open spec fn built_from(&self, h: &CsrMatrix) -> bool {
        &&& self.n_data == h.cols
        &&& self.n_total == h.cols
        &&& self.m == h.rows
        &&& self.n_edges == h.nnz()
        &&& classical_graph_of(h, self.cn_edges_data@, self.vn_edges@, self.edge_to_vn@)
        &&& self.cn_edges_total@.len() == self.cn_edges_data@.len()
        &&& forall|r: int|
            0 <= r < self.m ==> (#[trigger] self.cn_edges_total@[r])@ == self.cn_edges_data@[r]@
        &&& is_max_len(self.cn_edges_total@, self.cn_max_deg_total)
        &&& self.cn_max_deg_data == self.cn_max_deg_total
        &&& is_max_len(self.vn_edges@, self.vn_max_deg)
    }

    /// The Tanner graph of the parity-check matrix `h` (at least one row and
    /// one column).
    pub fn new(h: CsrMatrix) -> (g: Self)
        requires
            h.wf(),
            h.rows > 0,
            h.cols > 0,
        ensures
            g.built_from(&h),
            g.wf(),
            g.incidence_consistent(),
    {
        Self::build(&h)
    }

    /// Builds the graph of `h` without taking ownership of it.
    pub(crate) fn build(h: &CsrMatrix) -> (g: Self)
        requires
            h.wf(),
            h.rows > 0,
            h.cols > 0,
        ensures
            g.built_from(h),
            g.wf(),
            g.incidence_consistent(),
    {
        let m = h.rows;
        let n_data = h.cols;
        let n_total = n_data;
        let (cn_edges_data, cn_edges_total, vn_edges, edge_to_vn) = build_classical_graph(h);
        let cn_max_deg_total = max_len(&cn_edges_total);
        let cn_max_deg_data = cn_max_deg_total;
        let vn_max_deg = max_len(&vn_edges);
        let n_edges = edge_to_vn.len();
        let g = Graph {
            n_data,
            n_total,
            m,
            n_edges,
            cn_edges_data,
            cn_edges_total,
            vn_edges,
            cn_max_deg_data,
            cn_max_deg_total,
            vn_max_deg,
            edge_to_vn,
            _mode: PhantomData,
        };
        proof {
            lemma_row_edges_bound(h);
            assert forall|v: int, k: int|
                0 <= v < g.n_total && 0 <= k < g.vn_edges@[v]@.len() implies #[trigger] g.vn_edges@[v]@[k]
                    < g.n_edges by {
                assert(column_edges(h, v, g.vn_edges@[v]@));
            }
            assert forall|e: int| 0 <= e < g.n_edges implies #[trigger] g.edge_to_vn@[e] < g.n_total by {
                assert(h.indices@[e] < h.cols);
            }
            assert forall|j: int, k: int|
                0 <= j < g.m && 0 <= k < g.cn_edges_data@[j]@.len() implies {
                let e = #[trigger] g.cn_edges_data@[j]@[k];
                e < g.n_edges && g.edge_to_vn@[e as int] < g.n_data
            } by {
                let e = g.cn_edges_data@[j]@[k];
                assert(g.cn_edges_data@[j]@ == row_edges(h, j));
                assert(h.indices@[e as int] < h.cols);
            }
            assert forall|j: int, k: int|
                0 <= j < g.m && 0 <= k < g.cn_edges_total@[j]@.len() implies #[trigger] g.cn_edges_total@[j]@[k]
                    < g.n_edges by {
                assert(g.cn_edges_total@[j]@ == row_edges(h, j));
            }
            assert forall|v: int, e: usize|
                0 <= v < g.n_total && e < g.n_edges implies (#[trigger] g.vn_edges@[v]@.contains(e)
                    <==> g.edge_to_vn@[e as int] == v) by {
                let l = g.vn_edges@[v]@;
                assert(column_edges(h, v, l));
                if l.contains(e) {
                    let k = choose|k: int| 0 <= k < l.len() && l[k] == e;
                    assert(h.indices@[l[k] as int] == v);
                }
            }
            assert forall|e: int| 0 <= e < g.n_edges implies #[trigger] g.edge_on_a_check(e) by {
                lemma_row_exists(h, e, 0);
                let j = choose|r: int| 0 <= r < h.rows && h.in_row(r, e);
                let l = g.cn_edges_total@[j]@;
                assert(l == row_edges(h, j));
                assert(l[e - h.indptr@[j]] == e as usize);
                assert(l.contains(e as usize));
            }
            assert forall|e: usize, j1: int, j2: int|
                e < g.n_edges && 0 <= j1 < g.m && 0 <= j2 < g.m
                    && #[trigger] g.cn_edges_total@[j1]@.contains(e)
                    && #[trigger] g.cn_edges_total@[j2]@.contains(e) implies j1 == j2 by {
                let l1 = g.cn_edges_total@[j1]@;
                let l2 = g.cn_edges_total@[j2]@;
                assert(l1 == row_edges(h, j1));
                assert(l2 == row_edges(h, j2));
                let k1 = choose|k: int| 0 <= k < l1.len() && l1[k] == e;
                let k2 = choose|k: int| 0 <= k < l2.len() && l2[k] == e;
                crate::matrix::lemma_row_unique(h, j1, j2, e as int);
            }
        }
        g
    }
}

impl Graph<Quantum> {
    /// This graph is the Tanner graph of `h` extended by one
    /// syndrome-error variable node per check, for quantum decoding.
    pub open spec fn built_from(&self, h: &CsrMatrix) -> bool {
        &&& self.n_data == h.cols
        &&& self.n_total == h.cols + h.rows
        &&& self.m == h.rows
        &&& self.n_edges == h.nnz() + h.rows
        &&& quantum_graph_of(
            h,
            self.cn_edges_data@,
            self.cn_edges_total@,
            self.vn_edges@,
            self.edge_to_vn@,
        )
        &&& is_max_len(self.cn_edges_data@, self.cn_max_deg_data)
        &&& is_max_len(self.cn_edges_total@, self.cn_max_deg_total)
        &&& is_max_len(self.vn_edges@, self.vn_max_deg)
    }

    /// The extended Tanner graph of the parity-check matrix `h` (at least
    /// one row).
    pub fn new(h: CsrMatrix) -> (g: Self)
        requires
            h.wf(),
            h.rows > 0,
            h.cols + h.rows <= usize::MAX,
            h.nnz() + h.rows <= usize::MAX,
        ensures
            g.built_from(&h),
            g.wf(),
            g.incidence_consistent(),
    {
        Self::build(&h)
    }

    /// Builds the graph of `h` without taking ownership of it.
    pub(crate) fn build(h: &CsrMatrix) -> (g: Self)
        requires
            h.wf(),
            h.rows > 0,
            h.cols + h.rows <= usize::MAX,
            h.nnz() + h.rows <= usize::MAX,
        ensures
            g.built_from(h),
            g.wf(),
            g.incidence_consistent(),
    {
        let m = h.rows;
        let n_data = h.cols;
        let n_total = n_data + m;
        let (cn_edges_data, cn_edges_total, vn_edges, edge_to_vn) = build_quantum_graph(h);
        let cn_max_deg_data = max_len(&cn_edges_data);
        let cn_max_deg_total = max_len(&cn_edges_total);
        let vn_max_deg = max_len(&vn_edges);
        let n_edges = edge_to_vn.len();
        let g = Graph {
            n_data,
            n_total,
            m,
            n_edges,
            cn_edges_data,
            cn_edges_total,
            vn_edges,
            cn_max_deg_data,
            cn_max_deg_total,
            vn_max_deg,
            edge_to_vn,
            _mode: PhantomData,
        };
        proof {
            let nnz = h.nnz();
            let e2v = g.edge_to_vn@;
            lemma_row_edges_bound(h);
            assert forall|e: int| 0 <= e < g.n_edges implies #[trigger] e2v[e] == if e < nnz {
                h.indices@[e] as int
            } else {
                h.cols + e - nnz
            } by {}
            assert forall|v: int, k: int|
                0 <= v < g.n_total && 0 <= k < g.vn_edges@[v]@.len() implies #[trigger] g.vn_edges@[v]@[k]
                    < g.n_edges by {
                if v < h.cols {
                    assert(column_edges(h, v, g.vn_edges@[v]@));
                } else {
                    assert(g.vn_edges@[h.cols + (v - h.cols)]@ == seq![(nnz + (v - h.cols)) as usize]);
                }
            }
            assert forall|e: int| 0 <= e < g.n_edges implies #[trigger] g.edge_to_vn@[e] < g.n_total by {
                if e < nnz {
                    assert(h.indices@[e] < h.cols);
                }
                assert(e2v[e] == if e < nnz { h.indices@[e] as int } else { h.cols + e - nnz });
            }
            assert forall|j: int, k: int|
                0 <= j < g.m && 0 <= k < g.cn_edges_data@[j]@.len() implies {
                let e = #[trigger] g.cn_edges_data@[j]@[k];
                e < g.n_edges && g.edge_to_vn@[e as int] < g.n_data
            } by {
                let e = g.cn_edges_data@[j]@[k];
                assert(g.cn_edges_data@[j]@ == row_edges(h, j));
                assert(h.indices@[e as int] < h.cols);
                assert(e2v[e as int] == h.indices@[e as int]);
            }
            assert forall|j: int, k: int|
                0 <= j < g.m && 0 <= k < g.cn_edges_total@[j]@.len() implies #[trigger] g.cn_edges_total@[j]@[k]
                    < g.n_edges by {
                assert(g.cn_edges_total@[j]@ == row_edges(h, j).push((nnz + j) as usize));
                if k < row_edges(h, j).len() {
                    assert(g.cn_edges_total@[j]@[k] == row_edges(h, j)[k]);
                }
            }
            assert forall|v: int, e: usize|
                0 <= v < g.n_total && e < g.n_edges implies (#[trigger] g.vn_edges@[v]@.contains(e)
                    <==> g.edge_to_vn@[e as int] == v) by {
                let l = g.vn_edges@[v]@;
                assert(e2v[e as int] == if e < nnz { h.indices@[e as int] as int } else { h.cols + e - nnz });
                if v < h.cols {
                    assert(column_edges(h, v, l));
                    if l.contains(e) {
                        let k = choose|k: int| 0 <= k < l.len() && l[k] == e;
                        assert(h.indices@[l[k] as int] == v);
                    }
                    if e >= nnz {
                        if l.contains(e) {
                            let k = choose|k: int| 0 <= k < l.len() && l[k] == e;
                            assert(l[k] < nnz);
                        }
                    }
                } else {
                    let j = v - h.cols;
                    assert(g.vn_edges@[h.cols + j]@ == seq![(nnz + j) as usize]);
                    assert(l == seq![(nnz + j) as usize]);
                    if e < nnz {
                        assert(h.indices@[e as int] < h.cols);
                        assert(!l.contains(e)) by {
                            if l.contains(e) {
                                assert(l[0] == e);
                            }
                        }
                    } else if e == nnz + j {
                        assert(l[0] == e);
                    } else {
                        assert(!l.contains(e)) by {
                            if l.contains(e) {
                                assert(l[0] == e);
                            }
                        }
                    }
                }
            }
            assert forall|e: int| 0 <= e < g.n_edges implies #[trigger] g.edge_on_a_check(e) by {
                if e < nnz {
                    lemma_row_exists(h, e, 0);
                    let j = choose|r: int| 0 <= r < h.rows && h.in_row(r, e);
                    let l = g.cn_edges_total@[j]@;
                    assert(l == row_edges(h, j).push((nnz + j) as usize));
                    assert(l[e - h.indptr@[j]] == e as usize);
                    assert(l.contains(e as usize));
                } else {
                    let j = e - nnz;
                    let l = g.cn_edges_total@[j]@;
                    assert(l == row_edges(h, j).push((nnz + j) as usize));
                    assert(l[l.len() - 1] == e as usize);
                    assert(l.contains(e as usize));
                }
            }
            assert forall|e: usize, j1: int, j2: int|
                e < g.n_edges && 0 <= j1 < g.m && 0 <= j2 < g.m
                    && #[trigger] g.cn_edges_total@[j1]@.contains(e)
                    && #[trigger] g.cn_edges_total@[j2]@.contains(e) implies j1 == j2 by {
                let l1 = g.cn_edges_total@[j1]@;
                let l2 = g.cn_edges_total@[j2]@;
                let r1 = row_edges(h, j1);
                let r2 = row_edges(h, j2);
                assert(l1 == r1.push((nnz + j1) as usize));
                assert(l2 == r2.push((nnz + j2) as usize));
                let k1 = choose|k: int| 0 <= k < l1.len() && l1[k] == e;
                let k2 = choose|k: int| 0 <= k < l2.len() && l2[k] == e;
                if k1 < r1.len() {
                    assert(r1[k1] == e);
                }
                if k2 < r2.len() {
                    assert(r2[k2] == e);
                }
                if k1 < r1.len() && k2 < r2.len() {
                    crate::matrix::lemma_row_unique(h, j1, j2, e as int);
                }
            }
        }
        g
    }
}

/// The exclusive or of a sequence of zeros is zero.
proof fn lemma_xor_all_zero(s: Seq<u8>)
    requires
        forall|i: int| 0 <= i < s.len() ==> #[trigger] s[i] == 0,
    ensures
        xor_all(s) == 0,
    decreases s.len(),
{
    if s.len() > 0 {
        lemma_xor_all_zero(s.drop_last());
        let x = xor_all(s.drop_last());
        let y = s.last();
        assert(x ^ y == 0) by (bit_vector)
            requires
                x == 0,
                y == 0,
        ;
    }
}

/// The all-zero word satisfies every check: each check's parity over it,
/// on all its edges or on its data edges alone, is zero.
pub proof fn lemma_zero_word_satisfies<M: Mode>(g: &Graph<M>, bits: Seq<u8>)
    requires
        g.wf(),
        bits.len() >= g.n_total,
        forall|i: int| 0 <= i < bits.len() ==> #[trigger] bits[i] == 0,
    ensures
        forall|j: int| 0 <= j < g.m ==> #[trigger] g.check_parity(bits, j) == 0,
        forall|j: int| 0 <= j < g.m ==> #[trigger] g.data_parity(bits, j) == 0,
{
    assert forall|j: int| 0 <= j < g.m implies #[trigger] g.check_parity(bits, j) == 0 by {
        let eb = edge_bits(g.edge_to_vn@, bits, g.cn_edges_total@[j]@);
        assert forall|k: int| 0 <= k < eb.len() implies #[trigger] eb[k] == 0 by {
            let e = g.cn_edges_total@[j]@[k];
            assert(e < g.n_edges);
            assert(g.edge_to_vn@[e as int] < g.n_total);
        }
        lemma_xor_all_zero(eb);
    }
    assert forall|j: int| 0 <= j < g.m implies #[trigger] g.data_parity(bits, j) == 0 by {
        let eb = edge_bits(g.edge_to_vn@, bits, g.cn_edges_data@[j]@);
        assert forall|k: int| 0 <= k < eb.len() implies #[trigger] eb[k] == 0 by {
            let e = g.cn_edges_data@[j]@[k];
            assert(e < g.n_edges && g.edge_to_vn@[e as int] < g.n_data);
        }
        lemma_xor_all_zero(eb);
    }
}

/// In the extended graph for quantum decoding, a check's parity is the
/// parity of its data qubits combined with its syndrome-error node
/// `n_data + j`. Hence a word satisfies check `j` exactly when the
/// syndrome-error bit equals the parity of the data bits.
pub proof fn lemma_quantum_check_splits(g: &Graph<Quantum>, h: &CsrMatrix, bits: Seq<u8>, j: int)
    requires
        h.wf(),
        g.built_from(h),
        bits.len() >= g.n_total,
        0 <= j < g.m,
    ensures
        g.check_parity(bits, j) == g.data_parity(bits, j) ^ bits[g.n_data + j],
        g.check_parity(bits, j) == 0 <==> g.data_parity(bits, j) == bits[g.n_data + j],
{
    let data = g.cn_edges_data@[j]@;
    let total = g.cn_edges_total@[j]@;
    let e = (h.nnz() + j) as usize;
    assert(data == row_edges(h, j));
    assert(total == row_edges(h, j).push(e));
    assert(g.edge_to_vn@[e as int] == h.cols + j);
    let eb = edge_bits(g.edge_to_vn@, bits, total);
    assert(eb.drop_last() =~= edge_bits(g.edge_to_vn@, bits, data));
    assert(eb.last() == bits[g.n_data + j]);
    let x = g.data_parity(bits, j);
    let y = bits[g.n_data + j];
    assert((x ^ y == 0) == (x == y)) by (bit_vector);
}

/// Two strictly increasing sequences with the same elements are equal.
proof fn lemma_sorted_same_elements(a: Seq<usize>, b: Seq<usize>)
    requires
        forall|k1: int, k2: int| 0 <= k1 < k2 < a.len() ==> #[trigger] a[k1] < #[trigger] a[k2],
        forall|k1: int, k2: int| 0 <= k1 < k2 < b.len() ==> #[trigger] b[k1] < #[trigger] b[k2],
        forall|x: usize| a.contains(x) <==> b.contains(x),
    ensures
        a == b,
    decreases a.len(),
{
    if a.len() == 0 {
        if b.len() > 0 {
            assert(b.contains(b[0]));
        }
        assert(a =~= b);
    } else if b.len() == 0 {
        assert(a.contains(a[0]));
    } else {
        assert(a.contains(a[0]));
        assert(b.contains(b[0]));
        let ka = choose|k: int| 0 <= k < b.len() && b[k] == a[0];
        let kb = choose|k: int| 0 <= k < a.len() && a[k] == b[0];
        if ka > 0 {
            assert(b[0] < b[ka]);
        }
        if kb > 0 {
            assert(a[0] < a[kb]);
        }
        assert(a[0] == b[0]);
        let a1 = a.drop_first();
        let b1 = b.drop_first();
        assert forall|x: usize| a1.contains(x) <==> b1.contains(x) by {
            if a1.contains(x) {
                let k = choose|k: int| 0 <= k < a1.len() && a1[k] == x;
                assert(a[0] < a[k + 1]);
                assert(a.contains(x));
                let j = choose|j: int| 0 <= j < b.len() && b[j] == x;
                assert(j != 0);
                assert(b1[j - 1] == x);
            }
            if b1.contains(x) {
                let k = choose|k: int| 0 <= k < b1.len() && b1[k] == x;
                assert(b[0] < b[k + 1]);
                assert(b.contains(x));
                let j = choose|j: int| 0 <= j < a.len() && a[j] == x;
                assert(j != 0);
                assert(a1[j - 1] == x);
            }
        }
        assert forall|k1: int, k2: int| 0 <= k1 < k2 < a1.len() implies #[trigger] a1[k1] < #[trigger] a1[k2] by {
            assert(a[k1 + 1] < a[k2 + 1]);
        }
        assert forall|k1: int, k2: int| 0 <= k1 < k2 < b1.len() implies #[trigger] b1[k1] < #[trigger] b1[k2] by {
            assert(b[k1 + 1] < b[k2 + 1]);
        }
        lemma_sorted_same_elements(a1, b1);
        assert(a =~= b) by {
            assert forall|k: int| 0 <= k < a.len() implies a[k] == b[k] by {
                if k > 0 {
                    assert(a[k] == a1[k - 1] && b[k] == b1[k - 1]);
                }
            }
        }
    }
}

/// The edge list of a column of `h` is determined by `h`.
proof fn lemma_column_edges_unique(h: &CsrMatrix, c: int, a: Seq<usize>, b: Seq<usize>)
    requires
        column_edges(h, c, a),
        column_edges(h, c, b),
    ensures
        a == b,
{
    assert forall|x: usize| a.contains(x) <==> b.contains(x) by {
        if a.contains(x) {
            let k = choose|k: int| 0 <= k < a.len() && a[k] == x;
            assert(a[k] < h.nnz() && h.indices@[x as int] == c);
        }
        if b.contains(x) {
            let k = choose|k: int| 0 <= k < b.len() && b[k] == x;
            assert(b[k] < h.nnz() && h.indices@[x as int] == c);
        }
    }
    lemma_sorted_same_elements(a, b);
}

/// The graph for quantum decoding extends the classical Tanner graph of the
/// same matrix: the data check lists and the data variables' edge lists are
/// the classical ones, each check gains the edge `h.nnz() + j` to its
/// syndrome-error node `h.cols + j`, and the edge map is extended by those
/// nodes.
pub proof fn lemma_quantum_extends_classical(
    h: &CsrMatrix,
    cn_edges: Seq<Vec<usize>>,
    vn_edges: Seq<Vec<usize>>,
    edge_to_vn: Seq<usize>,
    q_cn_edges_data: Seq<Vec<usize>>,
    q_cn_edges_total: Seq<Vec<usize>>,
    q_vn_edges: Seq<Vec<usize>>,
    q_edge_to_vn: Seq<usize>,
)
    requires
        h.wf(),
        classical_graph_of(h, cn_edges, vn_edges, edge_to_vn),
        quantum_graph_of(h, q_cn_edges_data, q_cn_edges_total, q_vn_edges, q_edge_to_vn),
    ensures
        q_cn_edges_data.len() == cn_edges.len(),
        forall|r: int| 0 <= r < h.rows ==> (#[trigger] q_cn_edges_data[r])@ == cn_edges[r]@,
        q_cn_edges_total.len() == cn_edges.len(),
        forall|r: int|
            0 <= r < h.rows ==> (#[trigger] q_cn_edges_total[r])@ == cn_edges[r]@.push(
                (h.nnz() + r) as usize,
            ),
        q_vn_edges.len() == vn_edges.len() + h.rows,
        forall|v: int| 0 <= v < h.cols ==> (#[trigger] q_vn_edges[v])@ == vn_edges[v]@,
        forall|j: int|
            0 <= j < h.rows ==> (#[trigger] q_vn_edges[h.cols + j])@ == seq![(h.nnz() + j) as usize],
        q_edge_to_vn == edge_to_vn + Seq::new(h.rows as nat, |j: int| (h.cols + j) as usize),
{
    assert forall|v: int| 0 <= v < h.cols implies (#[trigger] q_vn_edges[v])@ == vn_edges[v]@ by {
        lemma_column_edges_unique(h, v, q_vn_edges[v]@, vn_edges[v]@);
    }
}

impl<M: Mode> Graph<M> {
    /// The two graphs have equal sizes, equal adjacency lists and equal
    /// maximum degrees.
    pub open spec fn same_graph(&self, other: &Graph<M>) -> bool {
        &&& self.n_data == other.n_data
        &&& self.n_total == other.n_total
        &&& self.m == other.m
        &&& self.n_edges == other.n_edges
        &&& self.cn_edges_data@.len() == other.cn_edges_data@.len()
        &&& forall|j: int|
            0 <= j < self.cn_edges_data@.len() ==> (#[trigger] self.cn_edges_data@[j])@
                == other.cn_edges_data@[j]@
        &&& self.cn_edges_total@.len() == other.cn_edges_total@.len()
        &&& forall|j: int|
            0 <= j < self.cn_edges_total@.len() ==> (#[trigger] self.cn_edges_total@[j])@
                == other.cn_edges_total@[j]@
        &&& self.vn_edges@.len() == other.vn_edges@.len()
        &&& forall|v: int|
            0 <= v < self.vn_edges@.len() ==> (#[trigger] self.vn_edges@[v])@ == other.vn_edges@[v]@
        &&& self.edge_to_vn@ == other.edge_to_vn@
        &&& self.cn_max_deg_data == other.cn_max_deg_data
        &&& self.cn_max_deg_total == other.cn_max_deg_total
        &&& self.vn_max_deg == other.vn_max_deg
    }
}

/// The largest list length is determined by the lists.
proof fn lemma_max_len_unique(v: Seq<Vec<usize>>, w: Seq<Vec<usize>>, x: usize, y: usize)
    requires
        v.len() == w.len(),
        forall|i: int| 0 <= i < v.len() ==> (#[trigger] v[i])@ == w[i]@,
        is_max_len(v, x),
        is_max_len(w, y),
    ensures
        x == y,
{
    let i = choose|i: int| 0 <= i < v.len() && (#[trigger] v[i])@.len() == x;
    let k = choose|k: int| 0 <= k < w.len() && (#[trigger] w[k])@.len() == y;
    assert(v[k]@.len() <= x);
    assert(w[i]@.len() <= y);
}

/// A Tanner graph for classical decoding is determined by its matrix.
pub proof fn lemma_classical_graph_determined(g1: &Graph<Classic>, g2: &Graph<Classic>, h: &CsrMatrix)
    requires
        h.wf(),
        g1.built_from(h),
        g2.built_from(h),
    ensures
        g1.same_graph(g2),
{
    assert forall|v: int| 0 <= v < g1.vn_edges@.len() implies (#[trigger] g1.vn_edges@[v])@
        == g2.vn_edges@[v]@ by {
        lemma_column_edges_unique(h, v, g1.vn_edges@[v]@, g2.vn_edges@[v]@);
    }
    assert forall|j: int| 0 <= j < g1.cn_edges_total@.len() implies (#[trigger] g1.cn_edges_total@[j])@
        == g2.cn_edges_total@[j]@ by {
        assert(g1.cn_edges_total@[j]@ == g1.cn_edges_data@[j]@);
        assert(g2.cn_edges_total@[j]@ == g2.cn_edges_data@[j]@);
    }
    lemma_max_len_unique(g1.cn_edges_total@, g2.cn_edges_total@, g1.cn_max_deg_total, g2.cn_max_deg_total);
    lemma_max_len_unique(g1.vn_edges@, g2.vn_edges@, g1.vn_max_deg, g2.vn_max_deg);
}

/// A graph for quantum decoding is determined by its matrix.
pub proof fn lemma_quantum_graph_determined(g1: &Graph<Quantum>, g2: &Graph<Quantum>, h: &CsrMatrix)
    requires
        h.wf(),
        g1.built_from(h),
        g2.built_from(h),
    ensures
        g1.same_graph(g2),
{
    assert forall|v: int| 0 <= v < g1.vn_edges@.len() implies (#[trigger] g1.vn_edges@[v])@
        == g2.vn_edges@[v]@ by {
        if v < h.cols {
            lemma_column_edges_unique(h, v, g1.vn_edges@[v]@, g2.vn_edges@[v]@);
        } else {
            assert(g1.vn_edges@[h.cols + (v - h.cols)]@ == seq![(h.nnz() + (v - h.cols)) as usize]);
            assert(g2.vn_edges@[h.cols + (v - h.cols)]@ == seq![(h.nnz() + (v - h.cols)) as usize]);
        }
    }
    lemma_max_len_unique(g1.cn_edges_data@, g2.cn_edges_data@, g1.cn_max_deg_data, g2.cn_max_deg_data);
    lemma_max_len_unique(g1.cn_edges_total@, g2.cn_edges_total@, g1.cn_max_deg_total, g2.cn_max_deg_total);
    lemma_max_len_unique(g1.vn_edges@, g2.vn_edges@, g1.vn_max_deg, g2.vn_max_deg);
}

/// Every edge listed for a row is a storage position of that row.
proof fn lemma_row_edges_bound(h: &CsrMatrix)
    requires
        h.wf(),
    ensures
        forall|r: int, k: int|
            0 <= r < h.rows && 0 <= k < row_edges(h, r).len() ==> h.in_row(r, #[trigger] row_edges(h, r)[k] as int)
                && row_edges(h, r)[k] < h.nnz(),
{
    assert forall|r: int, k: int|
        0 <= r < h.rows && 0 <= k < row_edges(h, r).len() implies h.in_row(r, #[trigger] row_edges(h, r)[k] as int)
            && row_edges(h, r)[k] < h.nnz() by {
        assert(h.indptr@[r] <= h.indptr@[r + 1] <= h.indptr@[h.rows as int]);
    }
}

} // verus!
