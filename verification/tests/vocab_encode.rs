use optiscore::dataset::TokenizedDataset;
use optiscore::vocab::Vocab;

fn toks(words: &[&str]) -> Vec<String> {
    words.iter().map(|w| w.to_string()).collect()
}

#[test]
fn vocab_first_seen_order_and_threshold() {
    let data = TokenizedDataset {
        token_squences: vec![toks(&["a", "b", "a"]), toks(&["b", "c"])],
        socres: vec![5, 3],
    };
    let vocab = Vocab::build(&data, 2);
    // <pad>, <unk>, then a and b (each seen twice); c stays below the threshold.
    assert_eq!(vocab.len(), 4);
    assert_eq!(vocab.get_id("<pad>"), 0);
    assert_eq!(vocab.get_id("<unk>"), 1);
    assert_eq!(vocab.get_id("a"), 2);
    assert_eq!(vocab.get_id("b"), 3);
    assert_eq!(vocab.get_id("c"), 1);
}

#[test]
fn vocab_determinism_across_builds() {
    let rows = vec![toks(&["x", "y", "x", "z"]), toks(&["y", "w"])];
    let d1 = TokenizedDataset { token_squences: rows.clone(), socres: vec![1, 2] };
    let d2 = TokenizedDataset { token_squences: rows, socres: vec![1, 2] };
    let v1 = Vocab::build(&d1, 1);
    let v2 = Vocab::build(&d2, 1);
    assert_eq!(v1.len(), v2.len());
    for t in ["x", "y", "z", "w", "absent", "<pad>", "<unk>"] {
        assert_eq!(v1.get_id(t), v2.get_id(t));
        // The same token always yields the same id within one instance too.
        assert_eq!(v1.get_id(t), v1.get_id(t));
    }
}

#[test]
fn unknown_token_falls_back_to_reserved_id() {
    let data = TokenizedDataset { token_squences: vec![toks(&["a"])], socres: vec![4] };
    let vocab = Vocab::build(&data, 1);
    assert_eq!(vocab.get_id("never-seen"), 1);
    assert_eq!(vocab.get_id(""), 1);
}

#[test]
fn encoding_pads_short_sequences() {
    let data = TokenizedDataset { token_squences: vec![toks(&["a", "b"])], socres: vec![5] };
    let vocab = Vocab::build(&data, 1);
    let out = data.to_processed_sequences(&vocab);
    assert_eq!(out.len(), 1);
    let (ids, score) = &out[0];
    assert_eq!(ids.len(), 128);
    assert_eq!(ids[0], vocab.get_id("a"));
    assert_eq!(ids[1], vocab.get_id("b"));
    for j in 2..128 {
        assert_eq!(ids[j], 0);
    }
    assert_eq!(*score, 5);
}

#[test]
fn encoding_truncates_long_sequences_to_prefix() {
    let words: Vec<String> = (0..130).map(|i| format!("w{}", i)).collect();
    let data = TokenizedDataset { token_squences: vec![words.clone()], socres: vec![2] };
    let vocab = Vocab::build(&data, 1);
    let out = data.to_processed_sequences(&vocab);
    let (ids, _) = &out[0];
    assert_eq!(ids.len(), 128);
    for j in 0..128 {
        assert_eq!(ids[j], vocab.get_id(&words[j]));
    }
    // The dropped remainder's ids appear nowhere past the fixed length.
    assert!(ids.iter().all(|&id| id != vocab.get_id(&words[128])));
}

#[test]
fn every_encoded_item_has_fixed_length() {
    let data = TokenizedDataset {
        token_squences: vec![
            toks(&[]),
            toks(&["a"]),
            (0..200).map(|i| format!("t{}", i)).collect(),
        ],
        socres: vec![1, 2, 3],
    };
    let vocab = Vocab::build(&data, 1);
    for (ids, _) in data.to_processed_sequences(&vocab) {
        assert_eq!(ids.len(), 128);
    }
}
