use vstd::prelude::*;

use crate::networks::accumulator::{column_fits, column_sum, rows, Accumulator};

verus! {

/// A layer from `M` inputs to `N` outputs: a row of weights for each input,
/// and the biases.
#[derive(Clone, Copy)]
pub struct Layer<T: Copy, const M: usize, const N: usize> {
    pub weights: [Accumulator<T, N>; M],
    pub biases: Accumulator<T, N>,
}

impl<const M: usize, const N: usize> Layer<i16, M, N> {
    /// The output of the layer for the inputs that are switched on: the
    /// biases and the rows of weights of those inputs, added up.
    pub fn forward_from_slice(&self, feats: &[usize]) -> (out: Accumulator<i16, N>)
        requires
            forall|k: int| 0 <= k < feats@.len() ==> (#[trigger] feats@[k]) < M,
            forall|at: int|
                0 <= at < N ==> #[trigger] column_fits(
                    self.biases.0@[at] as int,
                    rows(self.weights@),
                    feats@,
                    at,
                ),
        ensures
            forall|at: int|
                0 <= at < N ==> #[trigger] out.0@[at] == column_sum(
                    self.biases.0@[at] as int,
                    rows(self.weights@),
                    feats@,
                    feats@.len() as int,
                    at,
                ),
    {
        let mut out = self.biases;
        let mut k: usize = 0;
        while k < feats.len()
            invariant
                k <= feats@.len(),
                forall|i: int| 0 <= i < feats@.len() ==> (#[trigger] feats@[i]) < M,
                forall|at: int|
                    0 <= at < N ==> #[trigger] column_fits(
                        self.biases.0@[at] as int,
                        rows(self.weights@),
                        feats@,
                        at,
                    ),
                forall|at: int|
                    0 <= at < N ==> #[trigger] out.0@[at] == column_sum(
                        self.biases.0@[at] as int,
                        rows(self.weights@),
                        feats@,
                        k as int,
                        at,
                    ),
            decreases feats@.len() - k,
        {
            let feat = feats[k];
            proof {
                assert forall|at: int| 0 <= at < N implies i16::MIN <= #[trigger] out.0@[at]
                    + self.weights[feat as int].0@[at] <= i16::MAX by {
                    assert(column_fits(
                        self.biases.0@[at] as int,
                        rows(self.weights@),
                        feats@,
                        at,
                    ));
                    assert(i16::MIN <= column_sum(
                        self.biases.0@[at] as int,
                        rows(self.weights@),
                        feats@,
                        k + 1,
                        at,
                    ) <= i16::MAX);
                }
            }
            out.add(&self.weights[feat]);
            k = k + 1;
        }
        out
    }
}

} // verus!
