use llm_from_scratch::gptdataset::{window_count, GPTDataset};

fn tokens_1_to_10() -> Vec<u32> {
    vec![1, 2, 3, 4, 5, 6, 7, 8, 9, 10]
}

#[test]
fn window_count_formula() {
    // N = 10, L = 4, S = 1: floor((10 - 4 - 1) / 1) + 1 = 6 windows.
    let ds = GPTDataset::from_tokens(&tokens_1_to_10(), 4, 1);
    assert_eq!(ds.len(), 6);
    assert_eq!(window_count(10, 4, 1), 6);
}

#[test]
fn window_count_with_stride() {
    // N = 10, L = 4, S = 2: starts 0, 2, 4 (i < 6), so 3 windows.
    let ds = GPTDataset::from_tokens(&tokens_1_to_10(), 4, 2);
    assert_eq!(ds.len(), 3);
    assert_eq!(window_count(10, 4, 2), 3);
    // S = 3: starts 0, 3, so 2 windows.
    assert_eq!(window_count(10, 4, 3), 2);
    // S larger than the corpus: only the start at 0 fits.
    assert_eq!(window_count(10, 4, 100), 1);
}

#[test]
fn window_content() {
    let ds = GPTDataset::from_tokens(&tokens_1_to_10(), 4, 1);
    let (input0, target0) = ds.get(0).unwrap();
    assert_eq!(input0, vec![1, 2, 3, 4]);
    assert_eq!(target0, vec![2, 3, 4, 5]);
    let (input5, target5) = ds.get(5).unwrap();
    assert_eq!(input5, vec![6, 7, 8, 9]);
    assert_eq!(target5, vec![7, 8, 9, 10]);
}

#[test]
fn window_content_target_is_shifted_input() {
    let ds = GPTDataset::from_tokens(&tokens_1_to_10(), 4, 1);
    for w in 0..ds.len() {
        let (input, target) = ds.get(w).unwrap();
        assert_eq!(input.len(), 4);
        assert_eq!(target.len(), 4);
        for k in 0..3 {
            assert_eq!(target[k], input[k + 1]);
        }
    }
}

#[test]
fn degenerate_corpus() {
    // N <= L: no window fits.
    let ds = GPTDataset::from_tokens(&vec![1, 2, 3], 4, 1);
    assert_eq!(ds.len(), 0);
    assert!(ds.get(0).is_none());
    // N == L is degenerate too: the target would run past the end.
    let ds = GPTDataset::from_tokens(&vec![1, 2, 3, 4], 4, 1);
    assert_eq!(ds.len(), 0);
    // Empty corpus.
    let ds = GPTDataset::from_tokens(&vec![], 4, 1);
    assert_eq!(ds.len(), 0);
}

#[test]
fn get_bounds() {
    let ds = GPTDataset::from_tokens(&tokens_1_to_10(), 4, 1);
    let m = ds.len();
    for idx in 0..m {
        assert!(ds.get(idx).is_some());
    }
    assert!(ds.get(m).is_none());
    assert!(ds.get(m + 1).is_none());
    assert!(ds.get(usize::MAX).is_none());
}

#[test]
fn idempotent_reads() {
    let ds = GPTDataset::from_tokens(&tokens_1_to_10(), 4, 1);
    let (mut input_a, target_a) = ds.get(2).unwrap();
    let (input_b, target_b) = ds.get(2).unwrap();
    assert_eq!(input_a, input_b);
    assert_eq!(target_a, target_b);
    // The copies are independently owned: mutating one changes neither the
    // other copy nor what the dataset hands out afterwards.
    input_a[0] = 999;
    assert_eq!(input_b, vec![3, 4, 5, 6]);
    let (input_c, _) = ds.get(2).unwrap();
    assert_eq!(input_c, vec![3, 4, 5, 6]);
}

#[test]
fn new_matches_tiktoken_encoding() {
    // The text constructor must window exactly the ids that the r50k
    // byte-pair encoder assigns to the text.
    let text = "Hello, world! This is a small corpus for windowing.";
    let bpe = tiktoken_rs::r50k_base().unwrap();
    let ids = bpe.encode_with_special_tokens(text);
    let from_text = GPTDataset::new(text, 3, 2).unwrap();
    let from_ids = GPTDataset::from_tokens(&ids, 3, 2);
    assert_eq!(from_text.len(), from_ids.len());
    assert!(from_text.len() > 0);
    for w in 0..from_text.len() {
        assert_eq!(from_text.get(w), from_ids.get(w));
    }
    let (input0, _) = from_text.get(0).unwrap();
    assert_eq!(input0, ids[0..3].iter().map(|&x| x as i64).collect::<Vec<i64>>());
}
