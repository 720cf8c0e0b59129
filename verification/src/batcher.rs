//! Batch assembly: a group of encoded items becomes one flat grid of token
//! ids, row by row, beside the column of its target scores. The tensor
//! runtime that consumes the grid lives outside this library.
use vstd::prelude::*;
use crate::dataset::ProcessedItem;
use crate::vocab::MAX_SEQ_LEN;

verus! {

/// One assembled batch: `tokens` holds the items' id sequences one after the
/// other, `[k, MAX_SEQ_LEN]` in row-major order, and `targets` holds the `k`
/// scores, row `i` of both belonging to input item `i`.
pub struct FlatBatch {
    pub tokens: Vec<u32>,
    pub targets: Vec<u32>,
}

/// Assembles batches of encoded items.
pub struct ClassificationBatcher;

impl ClassificationBatcher {
    /// Lay the items' id sequences end to end, in item order, and collect
    /// their scores beside them.
    pub fn batch(&self, items: &Vec<ProcessedItem>) -> (r: FlatBatch)
        requires
            forall|i: int| 0 <= i < items@.len() ==> (#[trigger] items@[i]).wf(),
        ensures
            r.tokens@.len() == items@.len() * MAX_SEQ_LEN,
            r.targets@.len() == items@.len(),
            forall|i: int, j: int|
                0 <= i < items@.len() && 0 <= j < MAX_SEQ_LEN ==> r.tokens@[i * (
                MAX_SEQ_LEN as int) + j] == items@[i].token_ids@[j],
            forall|i: int| 0 <= i < items@.len() ==> r.targets@[i] == items@[i].score,
    {
        let mut tokens: Vec<u32> = Vec::new();
        let mut targets: Vec<u32> = Vec::new();
        let n = items.len();
        for i in 0..n
            invariant
                n == items@.len(),
                forall|p: int| 0 <= p < n ==> (#[trigger] items@[p]).wf(),
                tokens@.len() == i * (MAX_SEQ_LEN as int),
                targets@.len() == i,
                forall|p: int, q: int|
                    0 <= p < i && 0 <= q < MAX_SEQ_LEN ==> tokens@[p * (MAX_SEQ_LEN as int) + q]
                        == items@[p].token_ids@[q],
                forall|p: int| 0 <= p < i ==> targets@[p] == items@[p].score,
        {
            let item = &items[i];
            let m = item.token_ids.len();
            for j in 0..m
                invariant
                    n == items@.len(),
                    i < n,
                    m == MAX_SEQ_LEN,
                    item == items@[i as int],
                    item.token_ids@.len() == MAX_SEQ_LEN,
                    tokens@.len() == i * (MAX_SEQ_LEN as int) + j,
                    forall|p: int, q: int|
                        0 <= p < i && 0 <= q < MAX_SEQ_LEN ==> tokens@[p * (MAX_SEQ_LEN as int) + q]
                            == items@[p].token_ids@[q],
                    forall|q: int|
                        0 <= q < j ==> tokens@[i * (MAX_SEQ_LEN as int) + q] == items@[
                            i as int
                        ].token_ids@[q],
            {
                tokens.push(item.token_ids[j]);
            }
            targets.push(item.score);
        }
        FlatBatch { tokens, targets }
    }
}

} // verus!
