//! Random regular LDPC parity-check matrices from randomly paired sockets.

use vstd::prelude::*;
use rand::seq::SliceRandom;
use crate::matrix::{CsrMatrix, distinct_positions};

verus! {

/// Some socket `i` pairs check `c` with variable `v`.
pub open spec fn sockets_connect(vn: Seq<usize>, cn: Seq<usize>, c: int, v: int) -> bool {
    exists|i: int| 0 <= i < vn.len() && #[trigger] cn[i] == c && vn[i] == v
}

/// Some socket before `i` pairs check `c` with variable `v`.
pub open spec fn connected_before(vn: Seq<usize>, cn: Seq<usize>, i: int, c: int, v: int) -> bool {
    sockets_connect(vn.take(i), cn.take(i), c, v)
}

/// Some triplet sits at `(c, v)`.
pub open spec fn listed(tr: Seq<usize>, tc: Seq<usize>, c: int, v: int) -> bool {
    exists|k: int| 0 <= k < tr.len() && #[trigger] tr[k] == c && tc[k] == v
}

/// `h` is the `rows × cols` parity-check matrix with a one at `(c, v)`
/// exactly when some socket pairs check `c` with variable `v`.
pub open spec fn ldpc_of_sockets(h: &CsrMatrix, rows: int, cols: int, vn: Seq<usize>, cn: Seq<usize>) -> bool {
    &&& h.rows == rows
    &&& h.cols == cols
    &&& forall|c: int, v: int|
        #[trigger] h.contains(c, v) <==> (0 <= c < rows && 0 <= v < cols && sockets_connect(vn, cn, c, v))
    &&& forall|c: int, v: int| #[trigger] h.contains(c, v) ==> h.value(c, v) == 1
}

/// Extending the socket prefix by socket `i` adds exactly its pair.
proof fn lemma_connected_step(vn: Seq<usize>, cn: Seq<usize>, i: int, c: int, v: int)
    requires
        vn.len() == cn.len(),
        0 <= i < vn.len(),
    ensures
        connected_before(vn, cn, i + 1, c, v) <==> (connected_before(vn, cn, i, c, v) || (cn[i] == c
            && vn[i] == v)),
{
    let vt = vn.take(i + 1);
    let ct = cn.take(i + 1);
    if connected_before(vn, cn, i + 1, c, v) {
        let j = choose|j: int| 0 <= j < vt.len() && #[trigger] ct[j] == c && vt[j] == v;
        if j < i {
            assert(vn.take(i)[j] == vn[j] && cn.take(i)[j] == cn[j]);
        }
    }
    if connected_before(vn, cn, i, c, v) {
        let j = choose|j: int| 0 <= j < vn.take(i).len() && #[trigger] cn.take(i)[j] == c && vn.take(i)[j] == v;
        assert(ct[j] == c && vt[j] == v);
    }
    if cn[i] == c && vn[i] == v {
        assert(ct[i] == c && vt[i] == v);
    }
}

/// The parity-check matrix of `m` checks and `n` variables whose ones are
/// the pairs `(cn_sockets[i], vn_sockets[i])`; a pair given by several
/// sockets yields a single one.
pub fn ldpc_from_sockets(n: usize, m: usize, vn_sockets: &Vec<usize>, cn_sockets: &Vec<usize>) -> (h: CsrMatrix)
    requires
        vn_sockets@.len() == cn_sockets@.len(),
        forall|i: int| 0 <= i < vn_sockets@.len() ==> #[trigger] vn_sockets@[i] < n,
        forall|i: int| 0 <= i < cn_sockets@.len() ==> #[trigger] cn_sockets@[i] < m,
        m * n <= usize::MAX,
        m < usize::MAX,
    ensures
        h.wf(),
        ldpc_of_sockets(&h, m as int, n as int, vn_sockets@, cn_sockets@),
{
    let edges = vn_sockets.len();
    let mut edge_exists: Vec<bool> = Vec::new();
    let mut k: usize = 0;
    while k < m * n
        invariant
            m * n <= usize::MAX,
            edge_exists@.len() == k,
            k <= m * n,
            forall|j: int| 0 <= j < k ==> !#[trigger] edge_exists@[j],
        decreases m * n - k,
    {
        edge_exists.push(false);
        k += 1;
    }
    let mut t_rows: Vec<usize> = Vec::new();
    let mut t_cols: Vec<usize> = Vec::new();
    let mut t_vals: Vec<u8> = Vec::new();
    let ghost vn = vn_sockets@;
    let ghost cn = cn_sockets@;
    proof {
        assert forall|c: int, v: int| 0 <= c < m && 0 <= v < n implies edge_exists@[c * n + v]
            == #[trigger] connected_before(vn, cn, 0, c, v) by {
            crate::matrix::lemma_mixed_radix_bound(c, v, m as int, n as int);
        }
    }
    let mut i: usize = 0;
    while i < edges
        invariant
            0 <= i <= edges,
            edges == vn.len(),
            vn == vn_sockets@,
            cn == cn_sockets@,
            vn.len() == cn.len(),
            forall|j: int| 0 <= j < vn.len() ==> #[trigger] vn[j] < n,
            forall|j: int| 0 <= j < cn.len() ==> #[trigger] cn[j] < m,
            m * n <= usize::MAX,
            edge_exists@.len() == m * n,
            forall|c: int, v: int|
                0 <= c < m && 0 <= v < n ==> edge_exists@[c * n + v] == #[trigger] connected_before(
                    vn,
                    cn,
                    i as int,
                    c,
                    v,
                ),
            t_cols@.len() == t_rows@.len(),
            t_vals@.len() == t_rows@.len(),
            forall|k: int|
                0 <= k < t_rows@.len() ==> #[trigger] t_rows@[k] < m && t_cols@[k] < n && t_vals@[k]
                    == 1 && connected_before(vn, cn, i as int, t_rows@[k] as int, t_cols@[k] as int),
            distinct_positions(t_rows@, t_cols@),
            forall|c: int, v: int|
                0 <= c < m && 0 <= v < n && #[trigger] connected_before(vn, cn, i as int, c, v) ==> listed(
                    t_rows@,
                    t_cols@,
                    c,
                    v,
                ),
        decreases edges - i,
    {
        let v = vn_sockets[i];
        let c = cn_sockets[i];
        assert(vn[i as int] < n && cn[i as int] < m);
        proof {
            crate::matrix::lemma_mixed_radix_bound(c as int, v as int, m as int, n as int);
        }
        let idx = c * n + v;
        let ghost tr0 = t_rows@;
        let ghost tc0 = t_cols@;
        let ghost tv0 = t_vals@;
        let ghost ee0 = edge_exists@;
        assert(ee0[c * n + v] == connected_before(vn, cn, i as int, c as int, v as int));
        if !edge_exists[idx] {
            t_rows.push(c);
            t_cols.push(v);
            t_vals.push(1);
            edge_exists.set(idx, true);
            proof {
                let tr = t_rows@;
                let tc = t_cols@;
                assert forall|k1: int, k2: int|
                    #![trigger tr[k1], tr[k2]]
                    0 <= k1 < k2 < tr.len() implies !(tr[k1] == tr[k2] && tc[k1] == tc[k2]) by {
                    if k2 == tr.len() - 1 {
                        assert(tr0[k1] == tr[k1]);
                        assert(connected_before(vn, cn, i as int, tr0[k1] as int, tc0[k1] as int));
                    } else {
                        assert(tr0[k1] == tr[k1] && tr0[k2] == tr[k2]);
                    }
                }
                assert forall|c2: int, v2: int| 0 <= c2 < m && 0 <= v2 < n && #[trigger] connected_before(
                    vn,
                    cn,
                    i + 1,
                    c2,
                    v2,
                ) implies listed(t_rows@, t_cols@, c2, v2) by {
                    lemma_connected_step(vn, cn, i as int, c2, v2);
                    if c2 == c && v2 == v {
                        assert(tr[tr.len() - 1] == c2 && tc[tr.len() - 1] == v2);
                    } else {
                        assert(listed(tr0, tc0, c2, v2));
                        let k = choose|k: int| 0 <= k < tr0.len() && #[trigger] tr0[k] == c2 && tc0[k] == v2;
                        assert(tr[k] == tr0[k] && tc[k] == tc0[k]);
                    }
                }
            }
        }
        proof {
            let tr = t_rows@;
            let tc = t_cols@;
            assert forall|c2: int, v2: int|
                0 <= c2 < m && 0 <= v2 < n implies edge_exists@[c2 * n + v2]
                    == #[trigger] connected_before(vn, cn, i + 1, c2, v2) by {
                lemma_connected_step(vn, cn, i as int, c2, v2);
                crate::matrix::lemma_mixed_radix_bound(c2, v2, m as int, n as int);
                if c2 * n + v2 == idx {
                    crate::matrix::lemma_mixed_radix_unique(c2, v2, c as int, v as int, n as int);
                } else {
                    assert(edge_exists@[c2 * n + v2] == ee0[c2 * n + v2]);
                }
            }
            assert forall|k: int|
                0 <= k < tr.len() implies #[trigger] tr[k] < m && tc[k] < n && t_vals@[k] == 1
                    && connected_before(vn, cn, i + 1, tr[k] as int, tc[k] as int) by {
                lemma_connected_step(vn, cn, i as int, tr[k] as int, tc[k] as int);
                if k < tr0.len() {
                    assert(tr[k] == tr0[k] && tc[k] == tc0[k] && t_vals@[k] == tv0[k]);
                }
            }
            assert forall|c2: int, v2: int| 0 <= c2 < m && 0 <= v2 < n && #[trigger] connected_before(
                vn,
                cn,
                i + 1,
                c2,
                v2,
            ) implies listed(tr, tc, c2, v2) by {
                lemma_connected_step(vn, cn, i as int, c2, v2);
                if !(c2 == c && v2 == v) || ee0[c * n + v] {
                    if connected_before(vn, cn, i as int, c2, v2) {
                        assert(listed(tr0, tc0, c2, v2));
                        let k = choose|k: int| 0 <= k < tr0.len() && #[trigger] tr0[k] == c2 && tc0[k] == v2;
                        assert(tr[k] == tr0[k] && tc[k] == tc0[k]);
                    }
                }
            }
        }
        i += 1;
    }
    let ghost tr = t_rows@;
    let ghost tc = t_cols@;
    let ghost tv = t_vals@;
    proof {
        assert(vn.take(vn.len() as int) =~= vn);
        assert(cn.take(cn.len() as int) =~= cn);
        assert forall|k: int| 0 <= k < tr.len() implies #[trigger] tr[k] < m by {}
        assert forall|k: int| 0 <= k < tc.len() implies #[trigger] tc[k] < n by {
            assert(tr[k] < m);
        }
    }
    let h = crate::matrix::csr_from_triplets(m, n, t_rows, t_cols, t_vals);
    proof {
        assert forall|c: int, v: int|
            #[trigger] h.contains(c, v) <==> (0 <= c < m && 0 <= v < n && sockets_connect(vn, cn, c, v)) by {
            if h.contains(c, v) {
                let k = choose|k: int| 0 <= k < tr.len() && tr[k] == c && tc[k] == v;
                assert(tr[k] < m && tc[k] < n && connected_before(vn, cn, vn.len() as int, c, v));
            }
            if 0 <= c < m && 0 <= v < n && sockets_connect(vn, cn, c, v) {
                assert(connected_before(vn, cn, vn.len() as int, c, v));
                let k = choose|k: int| 0 <= k < tr.len() && #[trigger] tr[k] == c && tc[k] == v;
                assert(h.contains(tr[k] as int, tc[k] as int));
            }
        }
        assert forall|c: int, v: int| #[trigger] h.contains(c, v) implies h.value(c, v) == 1 by {
            let k = choose|k: int| 0 <= k < tr.len() && tr[k] == c && tc[k] == v;
            assert(tr[k] < m);
            assert(h.contains(tr[k] as int, tc[k] as int));
        }
    }
    h
}

/// The socket list of `count` nodes with `deg` sockets each: socket `i`
/// belongs to node `i / deg`.
pub open spec fn socket_list(count: int, deg: int) -> Seq<usize> {
    Seq::new((count * deg) as nat, |i: int| (i / deg) as usize)
}

/// The indices of `s` holding `x`.
pub open spec fn indices_of(s: Seq<usize>, x: usize) -> Set<int> {
    Set::new(|i: int| 0 <= i < s.len() && s[i] == x)
}

/// The multiplicity of `x` in `s` is its number of indices.
proof fn lemma_count_indices(s: Seq<usize>, x: usize)
    ensures
        indices_of(s, x).finite(),
        s.to_multiset().count(x) == indices_of(s, x).len(),
    decreases s.len(),
{
    if s.len() == 0 {
        assert(indices_of(s, x) =~= Set::empty());
        assert(s =~= Seq::<usize>::empty());
        broadcast use vstd::seq_lib::group_seq_properties;
    } else {
        let t = s.drop_last();
        let a = s.last();
        lemma_count_indices(t, x);
        assert(t.push(a) =~= s);
        vstd::seq_lib::to_multiset_build(t, a);
        if a == x {
            assert(indices_of(s, x) =~= indices_of(t, x).insert(t.len() as int));
        } else {
            assert(indices_of(s, x) =~= indices_of(t, x));
        }
    }
}

/// In a socket list, node `x` owns the sockets `x * deg .. x * deg + deg`.
proof fn lemma_socket_indices(count: int, deg: int, x: int)
    requires
        0 < deg,
        0 <= x < count,
        count * deg <= usize::MAX,
    ensures
        indices_of(socket_list(count, deg), x as usize) =~= vstd::set_lib::set_int_range(
            x * deg,
            x * deg + deg,
        ),
        indices_of(socket_list(count, deg), x as usize).finite(),
        indices_of(socket_list(count, deg), x as usize).len() == deg,
{
    let sl = socket_list(count, deg);
    crate::matrix::lemma_mixed_radix_bound(x, deg - 1, count, deg);
    assert(count <= count * deg) by (nonlinear_arith)
        requires
            0 < deg,
            0 <= count,
    ;
    assert forall|i: int| #[trigger] indices_of(sl, x as usize).contains(i) <==> x * deg <= i < x * deg + deg by {
        if 0 <= i < count * deg {
            crate::matrix::lemma_split(i, count, deg);
            assert(i / deg < count);
            if sl[i] == x as usize {
                assert(0 <= i / deg < count);
                assert(i / deg == x);
            }
            if x * deg <= i < x * deg + deg {
                vstd::arithmetic::div_mod::lemma_fundamental_div_mod_converse(i, deg, x, i - x * deg);
            }
        } else if x * deg <= i < x * deg + deg {
            assert(false);
        }
    }
    vstd::set_lib::lemma_int_range(x * deg, x * deg + deg);
    assert(indices_of(sl, x as usize) =~= vstd::set_lib::set_int_range(x * deg, x * deg + deg));
}

/// Builds the socket list of `count` nodes with `deg` sockets each.
fn build_sockets(count: usize, deg: usize) -> (sockets: Vec<usize>)
    requires
        count * deg <= usize::MAX,
    ensures
        sockets@ == socket_list(count as int, deg as int),
{
    let mut sockets: Vec<usize> = Vec::new();
    let mut node: usize = 0;
    while node < count
        invariant
            count * deg <= usize::MAX,
            node <= count,
            sockets@.len() == node * deg,
            forall|i: int| 0 <= i < sockets@.len() ==> #[trigger] sockets@[i] == i / deg as int,
        decreases count - node,
    {
        let mut k: usize = 0;
        while k < deg
            invariant
                count * deg <= usize::MAX,
                node < count,
                k <= deg,
                sockets@.len() == node * deg + k,
                forall|i: int| 0 <= i < sockets@.len() ==> #[trigger] sockets@[i] == i / deg as int,
            decreases deg - k,
        {
            proof {
                crate::matrix::lemma_mixed_radix_bound(node as int, k as int, count as int, deg as int);
                vstd::arithmetic::div_mod::lemma_fundamental_div_mod_converse(
                    node * deg + k,
                    deg as int,
                    node as int,
                    k as int,
                );
            }
            sockets.push(node);
            k += 1;
        }
        assert(node * deg + deg == (node + 1) * deg) by (nonlinear_arith);
        node += 1;
    }
    assert(sockets@ =~= socket_list(count as int, deg as int));
    sockets
}

/// Randomly permutes `v` in place, with `rand::seq::SliceRandom::shuffle`
/// driven by the thread-local generator `rand::rng()`.
///
/// Trusted: the result holds the same items as before, each as often (it
/// is a permutation). Which permutation comes out depends on chance and is
/// left unsaid.
#[verifier::external_body]
fn shuffle_sockets(v: &mut Vec<usize>)
    ensures
        final(v)@.to_multiset() == old(v)@.to_multiset(),
{
    v.shuffle(&mut rand::rng());
}

/// The column and row degrees of `h` do not exceed `dv` and `dc`.
pub open spec fn degrees_bounded(h: &CsrMatrix, dv: int, dc: int) -> bool {
    &&& forall|v: int|
        0 <= v < h.cols ==> #[trigger] h.col_rows(v).len() <= dv
    &&& forall|c: int| 0 <= c < h.rows ==> #[trigger] h.row_cols(c).len() <= dc
}

/// `h` pairs the sockets of `n` variables of degree `dv` with some
/// permutation of the sockets of `h.rows` checks of degree `dc`.
pub open spec fn random_ldpc_of(h: &CsrMatrix, n: int, dv: int, dc: int) -> bool {
    exists|s: Seq<usize>|
        s.to_multiset() == socket_list(h.rows as int, dc).to_multiset() && #[trigger] ldpc_of_sockets(
            h,
            h.rows as int,
            n,
            socket_list(n, dv),
            s,
        )
}

/// The degree bounds of a matrix built from a socket pairing.
proof fn lemma_socket_degrees(h: &CsrMatrix, n: int, m: int, dv: int, dc: int, s: Seq<usize>)
    requires
        h.wf(),
        0 < dv,
        0 < dc,
        n * dv == m * dc,
        n * dv <= usize::MAX,
        s.to_multiset() == socket_list(m, dc).to_multiset(),
        forall|i: int| 0 <= i < s.len() ==> #[trigger] s[i] < m,
        ldpc_of_sockets(h, m, n, socket_list(n, dv), s),
    ensures
        degrees_bounded(h, dv, dc),
{
    let vn = socket_list(n, dv);
    s.to_multiset_ensures();
    socket_list(m, dc).to_multiset_ensures();
    assert(s.len() == socket_list(m, dc).len());
    assert forall|v: int| 0 <= v < h.cols implies #[trigger] h.col_rows(v).len() <= dv by {
        let col = h.col_rows(v);
        let iv = indices_of(vn, v as usize);
        lemma_socket_indices(n, dv, v);
        let f = |i: int| s[i] as int;
        assert(iv.map(f) =~= col) by {
            assert forall|c: int| col.contains(c) implies iv.map(f).contains(c) by {
                let i = choose|i: int| 0 <= i < vn.len() && #[trigger] s[i] == c && vn[i] == v;
                assert(iv.contains(i) && f(i) == c);
            }
            assert forall|c: int| iv.map(f).contains(c) implies col.contains(c) by {
                let i = choose|i: int| iv.contains(i) && f(i) == c;
                assert(s[i] == c && vn[i] == v);
                assert(h.contains(c, v));
            }
        }
        vstd::set_lib::lemma_map_size_bound(iv, col, f);
    }
    assert forall|c: int| 0 <= c < h.rows implies #[trigger] h.row_cols(c).len() <= dc by {
        let row = h.row_cols(c);
        let jc = indices_of(s, c as usize);
        lemma_count_indices(s, c as usize);
        lemma_count_indices(socket_list(m, dc), c as usize);
        lemma_socket_indices(m, dc, c);
        let g = |i: int| vn[i] as int;
        assert(jc.map(g) =~= row) by {
            assert forall|v: int| row.contains(v) implies jc.map(g).contains(v) by {
                let i = choose|i: int| 0 <= i < vn.len() && #[trigger] s[i] == c && vn[i] == v;
                assert(jc.contains(i) && g(i) == v);
            }
            assert forall|v: int| jc.map(g).contains(v) implies row.contains(v) by {
                let i = choose|i: int| jc.contains(i) && g(i) == v;
                crate::matrix::lemma_split(i, n, dv);
                assert(s[i] == c && vn[i] == v);
                assert(h.contains(c, v));
            }
        }
        vstd::set_lib::lemma_map_size_bound(jc, row, g);
    }
}

/// A random regular LDPC parity-check matrix with `n` columns of degree `dv`
/// and `n * dv / dc` rows of degree `dc`: variable sockets are paired with a
/// random permutation of the check sockets, and repeated pairs collapse, so
/// degrees can come out lower than the targets.
pub fn gen_ldpc(n: usize, dv: usize, dc: usize) -> (h: CsrMatrix)
    requires
        dc != 0,
        n * dv <= usize::MAX,
        (n * dv) % (dc as int) == 0,
        (n * dv / (dc as int)) * n <= usize::MAX,
        n * dv / (dc as int) < usize::MAX,
    ensures
        h.wf(),
        h.rows == n * dv / (dc as int),
        h.cols == n,
        random_ldpc_of(&h, n as int, dv as int, dc as int),
        dv > 0 ==> degrees_bounded(&h, dv as int, dc as int),
{
    let edges = n * dv;
    let m = edges / dc;
    proof {
        vstd::arithmetic::div_mod::lemma_fundamental_div_mod(edges as int, dc as int);
        assert(m * dc == edges) by (nonlinear_arith)
            requires
                edges == dc * m + 0,
        ;
    }
    let vn_sockets = build_sockets(n, dv);
    let mut cn_sockets = build_sockets(m, dc);
    let ghost base = cn_sockets@;
    shuffle_sockets(&mut cn_sockets);
    let ghost s = cn_sockets@;
    proof {
        broadcast use vstd::seq_lib::group_seq_properties;
        base.to_multiset_ensures();
        s.to_multiset_ensures();
        assert(s.len() == base.len());
        assert forall|i: int| 0 <= i < cn_sockets@.len() implies #[trigger] cn_sockets@[i] < m by {
            assert(s.contains(s[i]));
            assert(s.to_multiset().count(s[i]) > 0);
            assert(base.to_multiset().count(s[i]) > 0);
            assert(base.contains(s[i]));
            let j = choose|j: int| 0 <= j < base.len() && base[j] == s[i];
            crate::matrix::lemma_split(j, m as int, dc as int);
        }
        assert forall|i: int| 0 <= i < vn_sockets@.len() implies #[trigger] vn_sockets@[i] < n by {
            crate::matrix::lemma_split(i, n as int, dv as int);
        }
    }
    let h = ldpc_from_sockets(n, m, &vn_sockets, &cn_sockets);
    proof {
        assert(ldpc_of_sockets(&h, h.rows as int, n as int, socket_list(n as int, dv as int), s));
        if dv > 0 {
            lemma_socket_degrees(&h, n as int, m as int, dv as int, dc as int, s);
        }
    }
    h
}

} // verus!
