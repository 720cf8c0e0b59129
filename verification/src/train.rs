//! Preparation of a training run: load, tokenize, build the vocabulary,
//! encode, guard against too-small corpora, and split into training and
//! validation parts. The optimizer loop that consumes the plan lives outside
//! this library.
use vstd::prelude::*;
use crate::csv::parse_csv;
use crate::dataset::{
    DataError, ProcessedItem, TextClassificationBatcher, kept_records, encode_tokens,
};
use crate::seg::segments_of;
use crate::vocab::{Vocab, vocab_tokens};

verus! {

/// The fewest usable corpus rows a training run accepts.
pub const MIN_TRAIN_ITEMS: usize = 10;

/// Where a dataset of `n` items is split: the training part takes the first
/// floor of four fifths of the items, the validation part the rest.
pub open spec fn split_point(n: int) -> int {
    4 * n / 5
}

/// Splitting at the four-fifths boundary loses nothing and keeps order: the
/// halves are prefix and suffix, they concatenate back to the whole, no
/// position lands in both, and the training half holds exactly floor(4n/5)
/// items.
pub proof fn lemma_split_complete(items: Seq<ProcessedItem>)
    ensures
        0 <= split_point(items.len() as int) <= items.len(),
        items.take(split_point(items.len() as int)) + items.skip(
            split_point(items.len() as int),
        ) == items,
        items.take(split_point(items.len() as int)).len() == split_point(items.len() as int),
        items.skip(split_point(items.len() as int)).len() == items.len() - split_point(
            items.len() as int,
        ),
{
    let n = items.len() as int;
    assert(0 <= 4 * n / 5 <= n) by (nonlinear_arith)
        requires
            n >= 0,
    ;
    assert(items.take(split_point(n)) + items.skip(split_point(n)) =~= items);
}

/// Split encoded items into the training prefix and the validation suffix.
pub fn split_items(items: Vec<ProcessedItem>) -> (r: (Vec<ProcessedItem>, Vec<ProcessedItem>))
    ensures
        r.0@ == items@.take(split_point(items@.len() as int)),
        r.1@ == items@.skip(split_point(items@.len() as int)),
        r.0@.len() == split_point(items@.len() as int),
        r.0@.len() + r.1@.len() == items@.len(),
{
    let n = items.len();
    proof {
        lemma_split_complete(items@);
    }
    let t128: u128 = (n as u128) * 4 / 5;
    let t = t128 as usize;
    proof {
        assert(t128 == split_point(n as int));
    }
    let mut train = items;
    let valid = train.split_off(t);
    (train, valid)
}

/// Everything a training run needs from the data side: the vocabulary and the
/// encoded training and validation items.
pub struct TrainingPlan {
    pub vocab: Vocab,
    pub train_items: Vec<ProcessedItem>,
    pub valid_items: Vec<ProcessedItem>,
}

/// The token rows a corpus's kept records segment into.
pub open spec fn tokenized_rows(kept: Seq<(u32, Seq<char>, u32)>) -> Seq<Seq<Seq<char>>> {
    Seq::new(kept.len(), |i: int| segments_of(kept[i].1))
}

/// What each kept record encodes to under a table: its fixed-length id
/// sequence and its score.
pub open spec fn encoded_of(kept: Seq<(u32, Seq<char>, u32)>, table: Seq<Seq<char>>) -> Seq<
    (Seq<u32>, u32),
> {
    Seq::new(kept.len(), |i: int| (encode_tokens(segments_of(kept[i].1), table), kept[i].2))
}

/// Whether an encoded item holds the given ids and score.
pub open spec fn item_is(item: ProcessedItem, enc: (Seq<u32>, u32)) -> bool {
    item.token_ids@ == enc.0 && item.score == enc.1
}

/// Prepare a training run from the corpus file's text: parse and filter the
/// rows, segment them, build the vocabulary at `min_freq`, encode every row,
/// refuse a corpus with fewer than `MIN_TRAIN_ITEMS` usable rows, and split
/// the rest four fifths to one fifth.
pub fn prepare_training_data(content: &str, min_freq: usize) -> (r: Result<TrainingPlan, DataError>)
    ensures
        parse_csv(content@) is None <==> (r matches Err(e) && e == DataError::Parse),
        (parse_csv(content@) matches Some(rows) && kept_records(rows).len() < MIN_TRAIN_ITEMS)
            <==> (r matches Err(e) && e == DataError::InsufficientData),
        r matches Ok(plan) ==> (parse_csv(content@) matches Some(rows) && {
            let kept = kept_records(rows);
            let table = vocab_tokens(tokenized_rows(kept), min_freq as nat);
            let enc = encoded_of(kept, table);
            let t = split_point(kept.len() as int);
            &&& kept.len() >= MIN_TRAIN_ITEMS
            &&& plan.vocab@ == table
            &&& plan.vocab.wf()
            &&& plan.train_items@.len() == t
            &&& plan.valid_items@.len() == kept.len() - t
            &&& forall|i: int|
                0 <= i < t ==> item_is(#[trigger] plan.train_items@[i], enc[i])
            &&& forall|i: int|
                0 <= i < kept.len() - t ==> item_is(#[trigger] plan.valid_items@[i], enc[t + i])
        }),
{
    let batcher = match TextClassificationBatcher::from_csv_content(content) {
        Err(e) => {
            return Err(e);
        },
        Ok(b) => b,
    };
    let ghost kept = batcher@;
    let tokenized = batcher.tokenize();
    proof {
        assert(tokenized.rows() =~= tokenized_rows(kept));
    }
    let vocab = Vocab::build(&tokenized, min_freq);
    let pairs = tokenized.to_processed_sequences(&vocab);
    let ghost table = vocab@;
    let ghost enc = encoded_of(kept, table);
    let mut items: Vec<ProcessedItem> = Vec::new();
    let np = pairs.len();
    proof {
        assert(tokenized.socres@.len() == tokenized.rows().len());
    }
    for i in 0..np
        invariant
            np == pairs@.len(),
            np == kept.len(),
            enc == encoded_of(kept, table),
            forall|p: int|
                0 <= p < np ==> #[trigger] pairs@[p].0@ == enc[p].0 && pairs@[p].1 == enc[p].1,
            items@.len() == i,
            forall|p: int| 0 <= p < i ==> item_is(#[trigger] items@[p], enc[p]),
    {
        let pair = &pairs[i];
        let ids = pair.0.clone();
        proof {
            assert(ids@ =~= pairs@[i as int].0@);
        }
        items.push(ProcessedItem { token_ids: ids, score: pair.1 });
    }
    if items.len() < MIN_TRAIN_ITEMS {
        return Err(DataError::InsufficientData);
    }
    proof {
        lemma_split_complete(items@);
    }
    let (train_items, valid_items) = split_items(items);
    Ok(TrainingPlan { vocab, train_items, valid_items })
}

} // verus!
