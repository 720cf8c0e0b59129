//! Corpus records after loading and segmentation, the encoded dataset, and
//! the fixed-length sequence encoder.
use vstd::prelude::*;
use crate::vocab::{Vocab, spec_get_id, MAX_SEQ_LEN, PAD_ID};
use crate::csv::{
    RawRow, parse_csv, parse_rows, parse_line, strip_cr, split_lines, header, chars_of,
    parse_line_exec, lemma_parse_rows_none_extends, split_into_lines, stripped_of, chars_eq,
};
use crate::seg::{segments_of, new_segmenter, segment};

verus! {

/// Why loading a corpus can fail: a malformed row, or too few usable rows to
/// train on.
#[derive(Debug, PartialEq, Eq, Structural)]
pub enum DataError {
    Parse,
    InsufficientData,
}

/// The unsigned score stored for a kept row: the raw score reinterpreted in
/// the unsigned range, as a two's-complement cast does.
pub open spec fn score_to_u32(sc: i32) -> u32 {
    if sc >= 0 {
        sc as u32
    } else {
        (sc + 0x1_0000_0000) as u32
    }
}

/// The rows kept after filtering: every row except those whose score is the
/// sentinel -1, in corpus order, with the score made unsigned.
pub open spec fn kept_records(rows: Seq<RawRow>) -> Seq<(u32, Seq<char>, u32)>
    decreases rows.len(),
{
    if rows.len() == 0 {
        Seq::empty()
    } else {
        let rest = kept_records(rows.drop_last());
        let r = rows.last();
        if r.2 == -1 {
            rest
        } else {
            rest.push((r.0, r.1, score_to_u32(r.2)))
        }
    }
}

/// Sentinel filtering: the kept records are exactly the rows whose score is
/// not -1, in their original order, each with its score made unsigned; a row
/// with any other score is always included.
pub proof fn lemma_sentinel_filtering(rows: Seq<RawRow>)
    ensures
        kept_records(rows) == rows.filter(|r: RawRow| r.2 != -1).map_values(
            |r: RawRow| (r.0, r.1, score_to_u32(r.2)),
        ),
    decreases rows.len(),
{
    reveal(Seq::filter);
    let pred = |r: RawRow| r.2 != -1;
    let f = |r: RawRow| (r.0, r.1, score_to_u32(r.2));
    if rows.len() == 0 {
        assert(kept_records(rows) =~= rows.filter(pred).map_values(f));
    } else {
        lemma_sentinel_filtering(rows.drop_last());
        let sub = rows.drop_last().filter(pred);
        if rows.last().2 != -1 {
            assert(rows.filter(pred) == sub.push(rows.last()));
            assert(sub.push(rows.last()).map_values(f) =~= sub.map_values(f).push(
                f(rows.last()),
            ));
        } else {
            assert(rows.filter(pred) == sub);
        }
    }
}

fn score_to_u32_exec(sc: i32) -> (r: u32)
    ensures
        r == score_to_u32(sc),
{
    if sc >= 0 {
        sc as u32
    } else {
        ((sc as i64) + 4294967296i64) as u32
    }
}

/// One labeled text.
struct TextScoreItem {
    content: String,
    score: u32,
}

/// One corpus entry as loaded: its original id and its labeled text.
struct DatasetItem {
    id: u32,
    item: TextScoreItem,
}

/// The loaded corpus: the kept rows, in file order.
pub struct TextClassificationBatcher {
    dataset: Vec<DatasetItem>,
}

impl View for TextClassificationBatcher {
    type V = Seq<(u32, Seq<char>, u32)>;

    closed spec fn view(&self) -> Seq<(u32, Seq<char>, u32)> {
        Seq::new(
            self.dataset@.len(),
            |i: int|
                (self.dataset@[i].id, self.dataset@[i].item.content@, self.dataset@[i].item.score),
        )
    }
}

impl TextClassificationBatcher {
    /// Load a corpus from the text of its file: the fixed header line, then
    /// one `id,text,score` row per line. Rows whose score is the sentinel -1
    /// are silently dropped; a malformed row aborts the load.
    pub fn from_csv_content(content: &str) -> (r: Result<TextClassificationBatcher, DataError>)
        ensures
            match r {
                Ok(b) => parse_csv(content@) matches Some(rows) && b@ == kept_records(rows),
                Err(e) => parse_csv(content@) is None && e == DataError::Parse,
            },
    {
        let chars = chars_of(content);
        let lines = split_into_lines(&chars);
        let ghost lines_dv = lines.deep_view();
        let ghost tail = lines_dv.skip(1);
        let header_line = stripped_of(&lines[0]);
        let expected = chars_of("id,text,score");
        proof {
            reveal_strlit("id,text,score");
            assert(lines_dv[0] =~= lines@[0]@);
        }
        if !chars_eq(&header_line, &expected) {
            proof {
                assert(strip_cr(lines_dv[0]) != header());
            }
            return Err(DataError::Parse);
        }
        proof {
            assert(strip_cr(lines_dv[0]) == header());
        }
        let mut items: Vec<DatasetItem> = Vec::new();
        let ghost mut acc = Seq::<RawRow>::empty();
        let n = lines.len();
        proof {
            assert(tail.take(0) =~= Seq::<Seq<char>>::empty());
            assert(items_view(items@) =~= kept_records(acc));
        }
        for k in 1..n
            invariant
                n == lines@.len(),
                lines_dv == lines.deep_view(),
                lines_dv == split_lines(content@),
                tail == lines_dv.skip(1),
                tail.len() == n - 1,
                strip_cr(lines_dv[0]) == header(),
                parse_rows(tail.take(k - 1)) == Some(acc),
                items_view(items@) == kept_records(acc),
        {
            proof {
                assert(tail.take(k as int).drop_last() =~= tail.take(k - 1));
                assert(tail.take(k as int).last() == tail[k - 1]);
                assert(tail[k - 1] == lines_dv[k as int]);
                assert(lines_dv[k as int] =~= lines@[k as int]@);
            }
            let stripped = stripped_of(&lines[k]);
            if stripped.len() == 0 {
                proof {
                    assert(parse_rows(tail.take(k as int)) == Some(acc));
                }
            } else {
                match parse_line_exec(&stripped) {
                    None => {
                        proof {
                            assert(parse_rows(tail.take(k as int)) is None);
                            lemma_parse_rows_none_extends(tail, k as int);
                        }
                        return Err(DataError::Parse);
                    },
                    Some(t) => {
                        let ghost row = (t.0, t.1@, t.2);
                        proof {
                            assert(parse_line(strip_cr(tail[k - 1])) == Some(row));
                            assert(acc.push(row).drop_last() =~= acc);
                            assert(parse_rows(tail.take(k as int)) == Some(acc.push(row)));
                        }
                        let ghost old_items = items@;
                        if t.2 != -1 {
                            let score = score_to_u32_exec(t.2);
                            items.push(
                                DatasetItem { id: t.0, item: TextScoreItem { content: t.1, score } },
                            );
                            proof {
                                assert(items_view(items@) =~= items_view(old_items).push(
                                    (row.0, row.1, score_to_u32(row.2)),
                                ));
                            }
                        }
                        proof {
                            acc = acc.push(row);
                        }
                    },
                }
            }
        }
        proof {
            assert(tail.take(n - 1) =~= tail);
        }
        let b = TextClassificationBatcher { dataset: items };
        proof {
            assert(b@ =~= kept_records(acc));
        }
        Ok(b)
    }

    /// Segment every kept row's text into tokens, in corpus order, keeping
    /// each row's score beside its token sequence.
    pub fn tokenize(self) -> (r: TokenizedDataset)
        ensures
            r.rows().len() == self@.len(),
            r.socres@.len() == self@.len(),
            forall|i: int|
                0 <= i < self@.len() ==> #[trigger] r.rows()[i] == segments_of(self@[i].1),
            forall|i: int| 0 <= i < self@.len() ==> #[trigger] r.socres@[i] == self@[i].2,
    {
        let seg = new_segmenter();
        let mut token_sequences: Vec<Vec<String>> = Vec::new();
        let mut scores: Vec<u32> = Vec::new();
        let n = self.dataset.len();
        for i in 0..n
            invariant
                n == self.dataset@.len(),
                token_sequences.deep_view().len() == i,
                scores@.len() == i,
                forall|p: int|
                    0 <= p < i ==> #[trigger] token_sequences.deep_view()[p] == segments_of(
                        self@[p].1,
                    ),
                forall|p: int| 0 <= p < i ==> #[trigger] scores@[p] == self@[p].2,
        {
            let item = &self.dataset[i];
            let toks = segment(&seg, item.item.content.as_str());
            let ghost toks_dv = toks.deep_view();
            let ghost old_dv = token_sequences.deep_view();
            token_sequences.push(toks);
            scores.push(item.item.score);
            proof {
                assert(token_sequences.deep_view() =~= old_dv.push(toks_dv));
                assert(self@[i as int].1 == item.item.content@);
            }
        }
        TokenizedDataset { token_squences: token_sequences, socres: scores }
    }

    /// Segment one free text, as the corpus rows are segmented.
    pub fn tokenize_single(text: &str) -> (r: Vec<String>)
        ensures
            r.deep_view() == segments_of(text@),
    {
        let seg = new_segmenter();
        segment(&seg, text)
    }
}

/// Encode one free text exactly as corpus rows are encoded for training:
/// segment it, map the tokens to ids, and normalize to the fixed length.
pub fn encode_text(vocab: &Vocab, text: &str) -> (r: Vec<u32>)
    requires
        vocab.wf(),
    ensures
        r@ == encode_tokens(segments_of(text@), vocab@),
        r@.len() == MAX_SEQ_LEN,
{
    let toks = TextClassificationBatcher::tokenize_single(text);
    encode_row(&toks, vocab)
}

/// The observable content of loaded corpus items.
spec fn items_view(items: Seq<DatasetItem>) -> Seq<(u32, Seq<char>, u32)> {
    Seq::new(items.len(), |i: int| (items[i].id, items[i].item.content@, items[i].item.score))
}

/// One corpus entry after word segmentation: its tokens and its label.
/// Row `i` of `token_squences` belongs to entry `i` of `socres`.
pub struct TokenizedDataset {
    pub token_squences: Vec<Vec<String>>,
    pub socres: Vec<u32>,
}

/// The ids a table assigns to a row of tokens, in row order.
pub open spec fn ids_of(tokens: Seq<Seq<char>>, table: Seq<Seq<char>>) -> Seq<u32> {
    tokens.map(|i: int, t: Seq<char>| spec_get_id(table, t))
}

/// An id sequence normalized to exactly `MAX_SEQ_LEN` entries: a longer one
/// keeps its first `MAX_SEQ_LEN` ids, a shorter one is right-padded with the
/// padding id.
pub open spec fn encode_ids(ids: Seq<u32>) -> Seq<u32> {
    if ids.len() >= MAX_SEQ_LEN {
        ids.take(MAX_SEQ_LEN as int)
    } else {
        ids + Seq::new((MAX_SEQ_LEN - ids.len()) as nat, |i: int| PAD_ID)
    }
}

/// What one tokenized row encodes to under a given table.
pub open spec fn encode_tokens(tokens: Seq<Seq<char>>, table: Seq<Seq<char>>) -> Seq<u32> {
    encode_ids(ids_of(tokens, table))
}

/// Every encoded sequence has length `MAX_SEQ_LEN` exactly, whatever the
/// input length was.
pub proof fn lemma_encoded_length(ids: Seq<u32>)
    ensures
        encode_ids(ids).len() == MAX_SEQ_LEN,
{
}

/// An input longer than `MAX_SEQ_LEN` encodes to the ids of its first
/// `MAX_SEQ_LEN` tokens; the remainder is dropped.
pub proof fn lemma_truncation_policy(ids: Seq<u32>)
    requires
        ids.len() > MAX_SEQ_LEN,
    ensures
        encode_ids(ids) == ids.take(MAX_SEQ_LEN as int),
        forall|j: int| 0 <= j < MAX_SEQ_LEN ==> encode_ids(ids)[j] == ids[j],
{
}

/// An input shorter than `MAX_SEQ_LEN` encodes to its own ids followed by
/// copies of the padding id up to the fixed length.
pub proof fn lemma_padding_policy(ids: Seq<u32>)
    requires
        ids.len() < MAX_SEQ_LEN,
    ensures
        encode_ids(ids).len() == MAX_SEQ_LEN,
        forall|j: int| 0 <= j < ids.len() ==> encode_ids(ids)[j] == ids[j],
        forall|j: int| ids.len() <= j < MAX_SEQ_LEN ==> encode_ids(ids)[j] == PAD_ID,
{
}

/// Encode one tokenized row to a fixed-length id sequence.
fn encode_row(row: &Vec<String>, vocab: &Vocab) -> (r: Vec<u32>)
    requires
        vocab.wf(),
    ensures
        r@ == encode_tokens(row.deep_view(), vocab@),
        r@.len() == MAX_SEQ_LEN,
{
    let ghost tokens = row.deep_view();
    let mut ids: Vec<u32> = Vec::new();
    let m = row.len();
    for j in 0..m
        invariant
            m == row@.len(),
            tokens == row.deep_view(),
            vocab.wf(),
            ids@ == ids_of(tokens.take(j as int), vocab@),
    {
        let id = vocab.get_id(row[j].as_str());
        ids.push(id);
        proof {
            assert(ids@ =~= ids_of(tokens.take(j as int + 1), vocab@));
        }
    }
    proof {
        assert(tokens.take(m as int) =~= tokens);
    }
    let ghost full = ids_of(tokens, vocab@);
    if ids.len() > MAX_SEQ_LEN {
        ids.truncate(MAX_SEQ_LEN);
        proof {
            assert(ids@ =~= full.take(MAX_SEQ_LEN as int));
            assert(ids@ =~= encode_ids(full));
        }
    }
    let ghost base = ids@;
    while ids.len() < MAX_SEQ_LEN
        invariant
            base.len() <= ids@.len() <= MAX_SEQ_LEN,
            ids@.take(base.len() as int) == base,
            forall|j: int| base.len() <= j < ids@.len() ==> ids@[j] == PAD_ID,
        decreases MAX_SEQ_LEN - ids@.len(),
    {
        ids.push(PAD_ID);
        proof {
            assert(ids@.take(base.len() as int) =~= base);
        }
    }
    proof {
        if full.len() >= MAX_SEQ_LEN {
            assert(base == encode_ids(full));
            assert(base.len() == MAX_SEQ_LEN);
            assert(ids@ =~= base);
        } else {
            assert(base == full);
            assert(ids@ =~= full + Seq::new((MAX_SEQ_LEN - full.len()) as nat, |i: int| PAD_ID));
        }
    }
    ids
}

impl TokenizedDataset {
    /// The tokenized rows as plain character sequences.
    pub open spec fn rows(&self) -> Seq<Seq<Seq<char>>> {
        self.token_squences.deep_view()
    }

    /// Encode every row to a fixed-length id sequence, paired with its label.
    /// Rows and labels are consumed in order, as far as both reach.
    pub fn to_processed_sequences(&self, vocab: &Vocab) -> (r: Vec<(Vec<u32>, u32)>)
        requires
            vocab.wf(),
        ensures
            r@.len() == if self.rows().len() <= self.socres@.len() {
                self.rows().len()
            } else {
                self.socres@.len()
            },
            forall|i: int|
                0 <= i < r@.len() ==> #[trigger] r@[i].0@ == encode_tokens(self.rows()[i], vocab@),
            forall|i: int| 0 <= i < r@.len() ==> #[trigger] r@[i].1 == self.socres@[i],
            forall|i: int| 0 <= i < r@.len() ==> r@[i].0@.len() == MAX_SEQ_LEN,
    {
        let n = if self.token_squences.len() <= self.socres.len() {
            self.token_squences.len()
        } else {
            self.socres.len()
        };
        let mut r: Vec<(Vec<u32>, u32)> = Vec::new();
        for i in 0..n
            invariant
                n <= self.token_squences@.len(),
                n <= self.socres@.len(),
                n == if self.rows().len() <= self.socres@.len() {
                    self.rows().len()
                } else {
                    self.socres@.len()
                },
                vocab.wf(),
                r@.len() == i,
                forall|p: int|
                    0 <= p < i ==> #[trigger] r@[p].0@ == encode_tokens(self.rows()[p], vocab@),
                forall|p: int| 0 <= p < i ==> #[trigger] r@[p].1 == self.socres@[p],
                forall|p: int| 0 <= p < i ==> r@[p].0@.len() == MAX_SEQ_LEN,
        {
            let row = &self.token_squences[i];
            proof {
                assert(row.deep_view() =~= self.rows()[i as int]);
            }
            let encoded = encode_row(row, vocab);
            let ghost encoded_v = encoded@;
            let ghost old_r = r@;
            r.push((encoded, self.socres[i]));
            proof {
                assert(row.deep_view() == self.rows()[i as int]);
                assert(r@[i as int].0@ == encoded_v);
                assert(r@[i as int].1 == self.socres@[i as int]);
                assert(forall|p: int| 0 <= p < i ==> r@[p] == old_r[p]);
            }
        }
        r
    }
}

/// One corpus entry after encoding: a fixed-length id sequence and its label.
#[derive(Clone, Debug)]
pub struct ProcessedItem {
    pub token_ids: Vec<u32>,
    pub score: u32,
}

impl ProcessedItem {
    /// Every encoded item holds exactly `MAX_SEQ_LEN` ids.
    pub open spec fn wf(&self) -> bool {
        self.token_ids@.len() == MAX_SEQ_LEN
    }
}

/// An indexable, immutable collection of encoded items.
pub struct MyDataset {
    data: Vec<ProcessedItem>,
}

impl View for MyDataset {
    type V = Seq<ProcessedItem>;

    closed spec fn view(&self) -> Seq<ProcessedItem> {
        self.data@
    }
}

impl MyDataset {
    pub fn new(data: Vec<ProcessedItem>) -> (r: MyDataset)
        ensures
            r@ == data@,
    {
        MyDataset { data }
    }

    /// A copy of the item at `index`, or nothing when the index is out of
    /// range.
    pub fn get(&self, index: usize) -> (r: Option<ProcessedItem>)
        ensures
            index < self@.len() ==> (r matches Some(it) && it.token_ids@ == self@[
                index as int
            ].token_ids@ && it.score == self@[index as int].score),
            index >= self@.len() ==> r is None,
    {
        if index < self.data.len() {
            let it = &self.data[index];
            let ids = it.token_ids.clone();
            proof {
                assert(ids@ =~= it.token_ids@);
            }
            Some(ProcessedItem { token_ids: ids, score: it.score })
        } else {
            None
        }
    }

    pub fn len(&self) -> (r: usize)
        ensures
            r == self@.len(),
    {
        self.data.len()
    }
}

} // verus!
