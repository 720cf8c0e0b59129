use optiscore::batcher::ClassificationBatcher;
use optiscore::dataset::{DataError, ProcessedItem, TextClassificationBatcher, MyDataset};
use optiscore::train::{prepare_training_data, split_items};
use optiscore::vocab::Vocab;

fn item(fill: u32, score: u32) -> ProcessedItem {
    ProcessedItem { token_ids: vec![fill; 128], score }
}

#[test]
fn sentinel_rows_are_filtered_out() {
    let content = "id,text,score\n1,hello,5\n2,skip me,-1\n3,world,3\n";
    let batcher = TextClassificationBatcher::from_csv_content(content).unwrap();
    let data = batcher.tokenize();
    assert_eq!(data.socres, vec![5, 3]);
    assert_eq!(data.token_squences.len(), 2);
}

#[test]
fn non_sentinel_negative_scores_are_kept_wrapped() {
    let content = "id,text,score\n1,a,-5\n";
    let batcher = TextClassificationBatcher::from_csv_content(content).unwrap();
    let data = batcher.tokenize();
    assert_eq!(data.socres, vec![4294967291]);
}

#[test]
fn malformed_row_is_a_parse_error() {
    let content = "id,text,score\n1,missing\n";
    assert!(matches!(
        TextClassificationBatcher::from_csv_content(content),
        Err(DataError::Parse)
    ));
    let content2 = "id,text,score\nxx,a,5\n";
    assert!(matches!(
        TextClassificationBatcher::from_csv_content(content2),
        Err(DataError::Parse)
    ));
}

#[test]
fn wrong_header_is_a_parse_error() {
    let content = "ident,words,mark\n1,a,5\n";
    assert!(matches!(
        TextClassificationBatcher::from_csv_content(content),
        Err(DataError::Parse)
    ));
}

#[test]
fn crlf_lines_and_empty_text_are_accepted() {
    let content = "id,text,score\r\n1,,5\r\n2,a,4\r\n";
    let batcher = TextClassificationBatcher::from_csv_content(content).unwrap();
    let data = batcher.tokenize();
    assert_eq!(data.socres, vec![5, 4]);
    assert!(data.token_squences[0].is_empty());
}

#[test]
fn text_may_contain_commas() {
    let content = "id,text,score\n1,a,b,c,5\n";
    let batcher = TextClassificationBatcher::from_csv_content(content).unwrap();
    let data = batcher.tokenize();
    assert_eq!(data.socres, vec![5]);
    let joined: String = data.token_squences[0].concat();
    assert_eq!(joined, "a,b,c");
}

#[test]
fn split_is_four_fifths_and_complete() {
    let items: Vec<ProcessedItem> = (0..10).map(|i| item(i, i)).collect();
    let (train, valid) = split_items(items);
    assert_eq!(train.len(), 8);
    assert_eq!(valid.len(), 2);
    for (i, it) in train.iter().enumerate() {
        assert_eq!(it.score, i as u32);
    }
    for (i, it) in valid.iter().enumerate() {
        assert_eq!(it.score, 8 + i as u32);
    }
    let items11: Vec<ProcessedItem> = (0..11).map(|i| item(i, i)).collect();
    let (train11, valid11) = split_items(items11);
    assert_eq!(train11.len(), 8);
    assert_eq!(valid11.len(), 3);
}

#[test]
fn batch_lays_rows_out_in_order() {
    let a = item(7, 5);
    let b = item(9, 3);
    let items = vec![a, b];
    let batch = ClassificationBatcher.batch(&items);
    assert_eq!(batch.tokens.len(), 2 * 128);
    assert_eq!(batch.targets, vec![5, 3]);
    for j in 0..128 {
        assert_eq!(batch.tokens[j], 7);
        assert_eq!(batch.tokens[128 + j], 9);
    }
}

#[test]
fn dataset_is_indexable_and_total_in_range() {
    let ds = MyDataset::new(vec![item(1, 9), item(2, 8)]);
    assert_eq!(ds.len(), 2);
    assert_eq!(ds.get(0).unwrap().score, 9);
    assert_eq!(ds.get(1).unwrap().token_ids, vec![2; 128]);
    assert!(ds.get(2).is_none());
}

#[test]
fn segmentation_tiles_the_input() {
    let text = "我很开心";
    let tokens = TextClassificationBatcher::tokenize_single(text);
    assert!(tokens.len() >= 2);
    let joined: String = tokens.concat();
    assert_eq!(joined, text);
}

#[test]
fn end_to_end_small_corpus() {
    let content = "id,text,score\n1,我很开心,5\n2,不好,-1\n3,还行,3\n";
    let batcher = TextClassificationBatcher::from_csv_content(content).unwrap();
    let data = batcher.tokenize();
    // The sentinel row is gone; rows 1 and 3 remain, in order.
    assert_eq!(data.socres, vec![5, 3]);
    assert_eq!(data.token_squences.len(), 2);

    let vocab = Vocab::build(&data, 1);
    // The vocabulary holds the reserved entries plus every distinct token,
    // with ids assigned consecutively in first-seen order.
    let mut distinct: Vec<&String> = Vec::new();
    for row in &data.token_squences {
        for tok in row {
            if !distinct.contains(&tok) {
                distinct.push(tok);
            }
        }
    }
    assert_eq!(vocab.len(), 2 + distinct.len());
    for (k, tok) in distinct.iter().enumerate() {
        assert_eq!(vocab.get_id(tok), 2 + k as u32);
    }

    // Every encoded item: its real ids first, padding after.
    let encoded = data.to_processed_sequences(&vocab);
    assert_eq!(encoded.len(), 2);
    for (row, (ids, _)) in data.token_squences.iter().zip(encoded.iter()) {
        assert_eq!(ids.len(), 128);
        for (j, tok) in row.iter().enumerate() {
            assert_eq!(ids[j], vocab.get_id(tok));
        }
        for j in row.len()..128 {
            assert_eq!(ids[j], 0);
        }
    }

    // A batch of the two items has shape [2, 128] and targets [5, 3].
    let items: Vec<ProcessedItem> = encoded
        .into_iter()
        .map(|(ids, score)| ProcessedItem { token_ids: ids, score })
        .collect();
    let batch = ClassificationBatcher.batch(&items);
    assert_eq!(batch.tokens.len(), 2 * 128);
    assert_eq!(batch.targets, vec![5, 3]);
}

#[test]
fn too_small_corpus_is_refused() {
    let mut content = String::from("id,text,score\n");
    for i in 0..9 {
        content.push_str(&format!("{},行{},4\n", i, i));
    }
    // One more row, but an unlabeled one: it does not count.
    content.push_str("9,跳过,-1\n");
    assert!(matches!(
        prepare_training_data(&content, 1),
        Err(DataError::InsufficientData)
    ));
}

#[test]
fn big_enough_corpus_yields_a_plan() {
    let mut content = String::from("id,text,score\n");
    for i in 0..10 {
        content.push_str(&format!("{},第{}行很好,{}\n", i, i, i % 5 + 1));
    }
    let plan = prepare_training_data(&content, 1).unwrap();
    assert_eq!(plan.train_items.len(), 8);
    assert_eq!(plan.valid_items.len(), 2);
    assert!(plan.vocab.len() >= 2);
    for it in plan.train_items.iter().chain(plan.valid_items.iter()) {
        assert_eq!(it.token_ids.len(), 128);
    }
}

#[test]
fn unparsable_corpus_fails_preparation() {
    assert!(matches!(
        prepare_training_data("not a corpus at all", 1),
        Err(DataError::Parse)
    ));
}
