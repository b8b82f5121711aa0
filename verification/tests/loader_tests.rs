use llm_from_scratch::dataloader::DataLoader;
use llm_from_scratch::gptdataset::GPTDataset;

/// A dataset with exactly five windows: 9 tokens, L = 4, S = 1.
fn five_window_dataset() -> GPTDataset {
    let tokens: Vec<u32> = vec![1, 2, 3, 4, 5, 6, 7, 8, 9];
    let ds = GPTDataset::from_tokens(&tokens, 4, 1);
    assert_eq!(ds.len(), 5);
    ds
}

#[test]
fn batching_without_drop_last() {
    let ds = five_window_dataset();
    let mut loader = DataLoader::new(ds, 2, false, Some(false));
    let mut sizes: Vec<usize> = Vec::new();
    while let Some((inputs, targets)) = loader.next_batch() {
        assert_eq!(inputs.len(), targets.len());
        sizes.push(inputs.len());
    }
    assert_eq!(sizes, vec![2, 2, 1]);
    assert_eq!(sizes.iter().sum::<usize>(), 5);
    // Exhaustion is terminal.
    assert!(loader.next_batch().is_none());
}

#[test]
fn batching_with_drop_last() {
    let ds = five_window_dataset();
    let mut loader = DataLoader::new(ds, 2, true, Some(false));
    let mut sizes: Vec<usize> = Vec::new();
    while let Some((inputs, _)) = loader.next_batch() {
        sizes.push(inputs.len());
    }
    assert_eq!(sizes, vec![2, 2]);
    // The short leftover batch is never returned, on this call or any later one.
    assert!(loader.next_batch().is_none());
    assert!(loader.next_batch().is_none());
}

#[test]
fn batch_contents_in_ascending_order() {
    let ds = five_window_dataset();
    let expected: Vec<(Vec<i64>, Vec<i64>)> = (0..5).map(|w| ds.get(w).unwrap()).collect();
    let mut loader = DataLoader::new(ds, 2, false, Some(false));

    let (inputs, targets) = loader.next_batch().unwrap();
    assert_eq!(inputs, vec![expected[0].0.clone(), expected[1].0.clone()]);
    assert_eq!(targets, vec![expected[0].1.clone(), expected[1].1.clone()]);

    let (inputs, targets) = loader.next_batch().unwrap();
    assert_eq!(inputs, vec![expected[2].0.clone(), expected[3].0.clone()]);
    assert_eq!(targets, vec![expected[2].1.clone(), expected[3].1.clone()]);

    let (inputs, targets) = loader.next_batch().unwrap();
    assert_eq!(inputs, vec![expected[4].0.clone()]);
    assert_eq!(targets, vec![expected[4].1.clone()]);

    assert!(loader.next_batch().is_none());
}

#[test]
fn unspecified_shuffle_means_no_shuffle() {
    let ds = five_window_dataset();
    let expected: Vec<(Vec<i64>, Vec<i64>)> = (0..5).map(|w| ds.get(w).unwrap()).collect();
    let mut loader = DataLoader::new(ds, 1, false, None);
    for item in expected.iter() {
        let (inputs, _) = loader.next_batch().unwrap();
        assert_eq!(inputs, vec![item.0.clone()]);
    }
    assert!(loader.next_batch().is_none());
}

#[test]
fn batch_size_larger_than_dataset() {
    let ds = five_window_dataset();
    let mut loader = DataLoader::new(ds, 10, false, Some(false));
    let (inputs, _) = loader.next_batch().unwrap();
    assert_eq!(inputs.len(), 5);
    assert!(loader.next_batch().is_none());

    let ds = five_window_dataset();
    let mut loader = DataLoader::new(ds, 10, true, Some(false));
    // With drop_last the lone short batch is dropped, repeatedly.
    assert!(loader.next_batch().is_none());
    assert!(loader.next_batch().is_none());
}

#[test]
fn empty_dataset_has_no_batches() {
    let ds = GPTDataset::from_tokens(&vec![1, 2, 3], 4, 1);
    assert_eq!(ds.len(), 0);
    let mut loader = DataLoader::new(ds, 2, false, Some(false));
    assert!(loader.next_batch().is_none());
}

#[test]
fn shuffle_determinism() {
    let collect_all = |seed: u64| -> Vec<(Vec<Vec<i64>>, Vec<Vec<i64>>)> {
        let ds = five_window_dataset();
        let mut loader = DataLoader::new_seeded(ds, 2, false, Some(true), seed);
        let mut batches = Vec::new();
        while let Some(batch) = loader.next_batch() {
            batches.push(batch);
        }
        batches
    };
    // The same seed plans the same permutation and thus the same batches.
    let run_a = collect_all(12345);
    let run_b = collect_all(12345);
    assert_eq!(run_a, run_b);
}

#[test]
fn shuffle_is_a_permutation() {
    let ds = five_window_dataset();
    let expected: Vec<(Vec<i64>, Vec<i64>)> = (0..5).map(|w| ds.get(w).unwrap()).collect();
    let mut loader = DataLoader::new_seeded(ds, 1, false, Some(true), 7);
    let mut seen: Vec<(Vec<i64>, Vec<i64>)> = Vec::new();
    while let Some((mut inputs, mut targets)) = loader.next_batch() {
        assert_eq!(inputs.len(), 1);
        seen.push((inputs.remove(0), targets.remove(0)));
    }
    assert_eq!(seen.len(), 5);
    // Every window comes out exactly once (all windows here are distinct).
    for item in expected.iter() {
        assert_eq!(seen.iter().filter(|s| *s == item).count(), 1);
    }
    // This seed actually reorders the dataset (deterministically).
    assert_ne!(seen, expected);
}

#[test]
fn seeded_without_shuffle_is_ascending_whatever_the_seed() {
    let ds = five_window_dataset();
    let expected: Vec<(Vec<i64>, Vec<i64>)> = (0..5).map(|w| ds.get(w).unwrap()).collect();
    let mut loader = DataLoader::new_seeded(ds, 1, false, Some(false), 99);
    for item in expected.iter() {
        let (inputs, _) = loader.next_batch().unwrap();
        assert_eq!(inputs, vec![item.0.clone()]);
    }
}
