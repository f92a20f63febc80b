//! Samples: parallel columns of binary labels and scores, in input order.
use vstd::prelude::*;
use crate::score::{is_ordered, score_value};

verus! {

/// Parsed samples in input order. `y_true[i]` is the label of sample `i`
/// (0 or 1) and `y_score[i]` the bit pattern of its score.
#[derive(Debug, Clone)]
pub struct Samples {
    pub y_true: Vec<u8>,
    pub y_score: Vec<u64>,
}

impl Samples {
    /// Columns of equal length, binary labels, and scores that are not NaN.
    pub open spec fn wf(&self) -> bool {
        &&& self.y_true@.len() == self.y_score@.len()
        &&& forall|i: int| 0 <= i < self.y_true@.len() ==> #[trigger] self.y_true@[i] <= 1
        &&& forall|i: int| 0 <= i < self.y_score@.len() ==> is_ordered(#[trigger] self.y_score@[i])
    }

    /// Number of samples.
    pub open spec fn size(&self) -> nat {
        self.y_true@.len()
    }

    /// The ordering value of the score of sample `i`.
    pub open spec fn score(&self, i: int) -> int {
        score_value(self.y_score@[i])
    }

    /// Number of samples.
    pub fn len(&self) -> (n: usize)
        ensures
            n == self.size(),
    {
        self.y_true.len()
    }

    /// Whether there are no samples.
    pub fn is_empty(&self) -> (r: bool)
        ensures
            r == (self.size() == 0),
    {
        self.y_true.len() == 0
    }
}

} // verus!
