use binpack_rs::strategy::common::fill_packing_strategy;
use binpack_rs::{
    create_hist, fast_pack, ComposerOutput, Histogram, NemoFormat, NemoOptions, NemoOutput,
    PackError, ReturnFormat, Sequence,
};

fn dataset(seqs: Vec<Sequence>) -> Vec<(String, Vec<Sequence>)> {
    vec![("input_ids".to_string(), seqs)]
}

#[test]
fn create_hist_counts_by_length() {
    let data = dataset(vec![vec![1, 2, 3], vec![4, 5], vec![6], vec![7, 8]]);
    let (hist, counts) = create_hist(&data, 4).unwrap();
    assert_eq!(counts, vec![0, 1, 2, 1, 0]);
    assert_eq!(hist.buckets[1], vec![vec![6]]);
    assert_eq!(hist.buckets[2], vec![vec![4, 5], vec![7, 8]]);
    assert_eq!(hist.buckets[3], vec![vec![1, 2, 3]]);
}

#[test]
fn create_hist_rejects_long_sequences() {
    let data = dataset(vec![vec![1, 2, 3], vec![4, 5, 6, 7]]);
    assert_eq!(create_hist(&data, 3).err(), Some(PackError::LengthExceeded));
}

#[test]
fn create_hist_rejects_missing_primary_field() {
    let data = vec![("labels".to_string(), vec![vec![1u32, 2]])];
    assert_eq!(create_hist(&data, 8).err(), Some(PackError::MissingRequiredField));
}

#[test]
fn fast_pack_composer_end_to_end() {
    let data = dataset(vec![vec![1, 2, 3], vec![4, 5], vec![6]]);
    let result = fast_pack(
        data,
        5,
        "first_fit".to_string(),
        "composer".to_string(),
        Some(0),
        NemoOptions::builder(),
    )
    .unwrap();
    match result {
        ReturnFormat::Composer(out) => {
            // lengths expand ascending to [1, 2, 3]; first-fit packs [1, 2] and [3]
            assert_eq!(out.tokens, vec![vec![6, 4, 5, 0, 0], vec![1, 2, 3, 0, 0]]);
            assert_eq!(out.positions_ids, vec![vec![0, 0, 1, 0, 0], vec![0, 1, 2, 0, 0]]);
        }
        _ => panic!("expected the composer layout"),
    }
}

#[test]
fn fast_pack_composer_without_pad_stays_ragged() {
    let data = dataset(vec![vec![1, 2, 3], vec![4, 5]]);
    let result = fast_pack(
        data,
        6,
        "first_fit".to_string(),
        "composer".to_string(),
        None,
        NemoOptions::builder(),
    )
    .unwrap();
    match result {
        ReturnFormat::Composer(out) => {
            assert_eq!(out.tokens, vec![vec![4, 5, 1, 2, 3]]);
            assert_eq!(out.positions_ids, vec![vec![0, 1, 0, 1, 2]]);
        }
        _ => panic!("expected the composer layout"),
    }
}

#[test]
fn fast_pack_nemo_end_to_end() {
    let data = dataset(vec![vec![1, 2], vec![3, 4, 5]]);
    let result = fast_pack(
        data,
        5,
        "first_fit".to_string(),
        "nemo".to_string(),
        None,
        NemoOptions::builder(),
    )
    .unwrap();
    match result {
        ReturnFormat::Nemo(out) => {
            assert_eq!(out.input_ids, vec![vec![1, 2, 3, 4, 5]]);
            assert_eq!(out.loss_mask, vec![vec![false, true, false, true, true]]);
            // the offset of each sub-sequence after the first
            assert_eq!(out.seq_start_id, vec![vec![2]]);
        }
        _ => panic!("expected the nemo layout"),
    }
}

#[test]
fn fast_pack_iterator_end_to_end() {
    let data = dataset(vec![vec![1, 2, 3], vec![4, 5], vec![6, 7, 8, 9]]);
    let result = fast_pack(
        data,
        4,
        "first_fit".to_string(),
        "iterator".to_string(),
        Some(0),
        NemoOptions::builder(),
    )
    .unwrap();
    match result {
        ReturnFormat::Iterator(mut it) => {
            // lengths expand ascending to [2, 3, 4]: packs [2], [3], [4]
            assert_eq!(it.len(), 3);
            let first = it.next().unwrap();
            assert_eq!(first.tokens, vec![4, 5, 0, 0]);
            assert_eq!(first.position_ids, vec![0, 1, 0, 0]);
            let second = it.next().unwrap();
            assert_eq!(second.tokens, vec![1, 2, 3, 0]);
            assert_eq!(second.position_ids, vec![0, 1, 2, 0]);
            assert_eq!(it.len(), 1);
            let third = it.next().unwrap();
            assert_eq!(third.tokens, vec![6, 7, 8, 9]);
            assert_eq!(third.position_ids, vec![0, 1, 2, 3]);
            // single pass: once exhausted, nothing more comes
            assert_eq!(it.len(), 0);
            assert!(it.next().is_none());
        }
        _ => panic!("expected the iterator layout"),
    }
}

#[test]
fn fast_pack_rejects_bad_selectors() {
    let data = dataset(vec![vec![1, 2]]);
    let err = fast_pack(
        data.clone(),
        4,
        "best_fit".to_string(),
        "composer".to_string(),
        None,
        NemoOptions::builder(),
    )
    .err();
    assert_eq!(err, Some(PackError::InvalidAlgorithm));
    let err = fast_pack(
        data.clone(),
        4,
        "first_fit".to_string(),
        "arrow".to_string(),
        None,
        NemoOptions::builder(),
    )
    .err();
    assert_eq!(err, Some(PackError::InvalidFormat));
    let err = fast_pack(
        data,
        4,
        "first_fit".to_string(),
        "nemo".to_string(),
        None,
        NemoOptions::builder().answer_loss_only(true),
    )
    .err();
    assert_eq!(err, Some(PackError::InvalidOptions));
}

#[test]
fn fast_pack_data_errors_come_first() {
    // a data failure is reported even when the algorithm is also bad
    let data = vec![("labels".to_string(), vec![vec![1u32, 2]])];
    let err = fast_pack(
        data,
        4,
        "best_fit".to_string(),
        "composer".to_string(),
        None,
        NemoOptions::builder(),
    )
    .err();
    assert_eq!(err, Some(PackError::MissingRequiredField));
}

#[test]
fn fast_pack_empty_dataset_gives_empty_output() {
    let result = fast_pack(
        Vec::new(),
        4,
        "first_fit".to_string(),
        "composer".to_string(),
        Some(0),
        NemoOptions::builder(),
    )
    .unwrap();
    match result {
        ReturnFormat::Composer(out) => {
            assert_eq!(out.tokens, Vec::<Sequence>::new());
            assert_eq!(out.positions_ids, Vec::<Sequence>::new());
        }
        _ => panic!("expected the composer layout"),
    }
}

#[test]
fn fill_truncates_an_overfull_pack_and_never_pads_it() {
    // an assignment that overfills a pack is cut to the capacity, and the
    // configured pad id is not applied to it
    let hist = Histogram {
        buckets: vec![Vec::new(), Vec::new(), vec![vec![1, 2], vec![3, 4]], Vec::new()],
    };
    let result = fill_packing_strategy(
        vec![vec![2, 2]],
        hist,
        3,
        Some(9),
        ReturnFormat::Composer(ComposerOutput { tokens: Vec::new(), positions_ids: Vec::new() }),
        None,
    );
    match result {
        ReturnFormat::Composer(out) => {
            assert_eq!(out.tokens.len(), 1);
            assert_eq!(out.tokens[0].len(), 3);
            assert!(!out.tokens[0].contains(&9));
            assert_eq!(out.positions_ids[0].len(), 3);
        }
        _ => panic!("expected the composer layout"),
    }
}

#[test]
fn round_trip_no_sequence_lost_or_duplicated() {
    let seqs: Vec<Sequence> =
        vec![vec![1], vec![2, 3], vec![4, 5, 6], vec![7], vec![8, 9], vec![10, 11, 12, 13]];
    let result = fast_pack(
        dataset(seqs.clone()),
        4,
        "first_fit_decreasing".to_string(),
        "composer".to_string(),
        None,
        NemoOptions::builder(),
    )
    .unwrap();
    match result {
        ReturnFormat::Composer(out) => {
            let mut packed: Vec<u32> = out.tokens.into_iter().flatten().collect();
            let mut original: Vec<u32> = seqs.into_iter().flatten().collect();
            packed.sort();
            original.sort();
            assert_eq!(packed, original);
        }
        _ => panic!("expected the composer layout"),
    }
}

#[test]
fn return_format_from_str_accepts_known_names() {
    assert!(matches!(ReturnFormat::from_str("composer"), Ok(ReturnFormat::Composer(_))));
    assert!(matches!(ReturnFormat::from_str("NEMO"), Ok(ReturnFormat::Nemo(_))));
    assert!(matches!(ReturnFormat::from_str("iterator"), Ok(ReturnFormat::Iterator(_))));
    assert!(matches!(ReturnFormat::from_str("arrow"), Err(PackError::InvalidFormat)));
}

#[test]
fn nemo_output_entries_keep_their_keys() {
    let out = NemoOutput {
        input_ids: vec![vec![1, 2]],
        loss_mask: vec![vec![false, true]],
        seq_start_id: vec![vec![]],
    };
    let entries = out.entries();
    assert_eq!(entries.len(), 3);
    assert_eq!(entries[0].0, "input_ids");
    assert!(matches!(&entries[0].1, NemoFormat::Tokens(t) if t == &vec![vec![1, 2]]));
    assert_eq!(entries[1].0, "loss_mask");
    assert!(matches!(&entries[1].1, NemoFormat::LossMask(m) if m == &vec![vec![false, true]]));
    assert_eq!(entries[2].0, "seq_start_id");
    assert!(matches!(&entries[2].1, NemoFormat::Tokens(t) if t == &vec![Vec::<u32>::new()]));
}

#[test]
fn pack_exactly_full_is_not_padded() {
    let data = dataset(vec![vec![1, 2, 3]]);
    let result = fast_pack(
        data,
        3,
        "first_fit".to_string(),
        "composer".to_string(),
        Some(9),
        NemoOptions::builder(),
    )
    .unwrap();
    match result {
        ReturnFormat::Composer(out) => {
            assert_eq!(out.tokens, vec![vec![1, 2, 3]]);
            assert_eq!(out.positions_ids, vec![vec![0, 1, 2]]);
        }
        _ => panic!("expected the composer layout"),
    }
}
