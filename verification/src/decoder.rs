//! The outcome of decoding on a Tanner graph.

use vstd::prelude::*;
use crate::graph::{Graph, Mode};

verus! {

/// The result of a decoding run: the hard-decision estimate of every
/// variable node, the number of iterations performed, and whether the
/// estimate satisfies the syndrome.
pub struct DecoderResult {
    pub estimate: Vec<u8>,
    pub iterations: u32,
    pub success: bool,
}

impl DecoderResult {
    /// The result before any decoding: an all-zero estimate over the
    /// graph's variable nodes, no iterations, no success.
    pub fn new<M: Mode>(graph: &Graph<M>) -> (res: Self)
        ensures
            res.estimate@ == Seq::new(graph.n_total as nat, |i: int| 0u8),
            res.iterations == 0,
            !res.success,
    {
        let mut estimate: Vec<u8> = Vec::new();
        let mut i: usize = 0;
        while i < graph.n_total
            invariant
                i <= graph.n_total,
                estimate@ == Seq::new(i as nat, |k: int| 0u8),
            decreases graph.n_total - i,
        {
            estimate.push(0);
            i += 1;
            assert(estimate@ =~= Seq::new(i as nat, |k: int| 0u8));
        }
        let iterations: u32 = 0;
        let success = false;
        DecoderResult { estimate, iterations, success }
    }

    /// The decision of the decoding loop after `i` iterations, given the
    /// hard decisions `vn_quant` of that point: before `max_iter`
    /// iterations, decoding stops with success exactly when `vn_quant`
    /// reproduces `syndrome` on every check; at `max_iter` it stops with
    /// failure and `max_iter` iterations. When it stops, the estimate is
    /// recorded; otherwise the result is left as it was. Returns whether
    /// decoding stops.
    pub fn record_step<M: Mode>(
        &mut self,
        graph: &Graph<M>,
        i: u32,
        max_iter: u32,
        vn_quant: Vec<u8>,
        syndrome: &[u8],
    ) -> (stop: bool)
        requires
            graph.wf(),
            forall|e: int| 0 <= e < graph.n_edges ==> #[trigger] graph.edge_to_vn@[e] < vn_quant@.len(),
            syndrome@.len() >= graph.m,
        ensures
            stop == (i >= max_iter || graph.satisfies(vn_quant@, syndrome@)),
            stop ==> final(self).estimate@ == vn_quant@,
            stop && i < max_iter ==> final(self).success && final(self).iterations == i,
            stop && i >= max_iter ==> !final(self).success && final(self).iterations == max_iter,
            !stop ==> final(self).estimate@ == old(self).estimate@ && final(self).iterations
                == old(self).iterations && final(self).success == old(self).success,
    {
        if i < max_iter {
            if graph.satisfies_syndrome(vn_quant.as_slice(), syndrome) {
                self.estimate = vn_quant;
                self.iterations = i;
                self.success = true;
                return true;
            }
            return false;
        }
        self.estimate = vn_quant;
        self.iterations = max_iter;
        self.success = false;
        true
    }
}

} // verus!
