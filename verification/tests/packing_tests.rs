use binpack_rs::packing::{first_fit, first_fit_decreasing, first_fit_shuffle, PackingAlgo};
use binpack_rs::PackError;

#[test]
fn test_first_fit() {
    let seqlens = vec![1, 2, 3, 4, 5];
    let pack_size = 5;
    let result = first_fit(seqlens.clone(), pack_size);
    assert_eq!(result.len(), 4);
    assert_eq!(result[0], vec![1, 2]);
    assert_eq!(result[1], vec![3]);
    assert_eq!(result[2], vec![4]);
    assert_eq!(result[3], vec![5]);
}

#[test]
fn test_first_fit_decreasing() {
    let seqlens = vec![1, 2, 3, 4, 5];
    let pack_size = 5;
    let result = first_fit_decreasing(seqlens.clone(), pack_size);
    assert_eq!(result.len(), 3);
    assert_eq!(result[0], vec![5]);
    assert_eq!(result[1], vec![4, 1]);
    assert_eq!(result[2], vec![3, 2]);
}

#[test]
fn first_fit_capacity_is_respected() {
    let seqlens = vec![4, 4, 3, 2, 2, 1, 5, 3];
    let pack_size = 6;
    let result = first_fit(seqlens, pack_size);
    for bin in &result {
        let total: usize = bin.iter().sum();
        assert!(total <= pack_size);
    }
}

#[test]
fn first_fit_is_deterministic() {
    let seqlens = vec![3, 1, 4, 1, 5, 2, 6];
    let a = first_fit(seqlens.clone(), 7);
    let b = first_fit(seqlens, 7);
    assert_eq!(a, b);
}

#[test]
fn first_fit_conserves_lengths() {
    let seqlens = vec![2, 5, 1, 3, 3, 4];
    let pack_size = 6;
    let result = first_fit(seqlens.clone(), pack_size);
    let mut flattened: Vec<usize> = result.into_iter().flatten().collect();
    let mut expected = seqlens;
    flattened.sort();
    expected.sort();
    assert_eq!(flattened, expected);
}

#[test]
fn first_fit_shuffle_packs_uniform_lengths() {
    // with all lengths equal, any permutation packs the same way
    let seqlens = vec![2, 2, 2];
    let result = first_fit_shuffle(seqlens, 4);
    assert_eq!(result, vec![vec![2, 2], vec![2]]);
}

#[test]
fn packing_algo_from_str_accepts_known_names() {
    assert!(matches!(PackingAlgo::from_str("first_fit"), Ok(PackingAlgo::FirstFit)));
    assert!(matches!(
        PackingAlgo::from_str("first_fit_shuffle"),
        Ok(PackingAlgo::FirstFitShuffle)
    ));
    assert!(matches!(
        PackingAlgo::from_str("first_fit_decreasing"),
        Ok(PackingAlgo::FirstFitDecreasing)
    ));
    assert!(matches!(PackingAlgo::from_str("FIRST_FIT"), Ok(PackingAlgo::FirstFit)));
}

#[test]
fn packing_algo_from_str_rejects_unknown_names() {
    assert_eq!(PackingAlgo::from_str("best_fit"), Err(PackError::InvalidAlgorithm));
    assert_eq!(PackingAlgo::from_str(""), Err(PackError::InvalidAlgorithm));
}

#[test]
fn pack_dispatches_to_selected_algorithm() {
    let algo = PackingAlgo::FirstFitDecreasing;
    let result = algo.pack(vec![1, 2, 3, 4, 5], 5);
    assert_eq!(result, vec![vec![5], vec![4, 1], vec![3, 2]]);
    let algo = PackingAlgo::FirstFit;
    let result = algo.pack(vec![1, 2, 3, 4, 5], 5);
    assert_eq!(result, vec![vec![1, 2], vec![3], vec![4], vec![5]]);
}
