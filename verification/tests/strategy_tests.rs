use binpack_rs::strategy::common::create_position_ids;
use binpack_rs::strategy::nemo::{create_loss_mask, NemoOptions};
use binpack_rs::PackError;

#[test]
fn test_position_ids() {
    let input_ids = vec![vec![1, 2, 3], vec![4, 5, 6, 7]];
    let position_ids = create_position_ids(&input_ids);
    assert_eq!(position_ids[0], vec![0, 1, 2]);
    assert_eq!(position_ids[1], vec![0, 1, 2, 3]);
}

#[test]
fn test_loss_mask() {
    // No answer
    let input_ids = vec![1, 2, 3, 4, 5];
    let loss_mask = create_loss_mask(input_ids, false, None, None, None);
    assert_eq!(loss_mask, vec![false, true, true, true, true]);
    let input_ids = vec![
        2, 105, 2364, 107, 3689, 563, 506, 5279, 529, 7001, 236881, 106, 107, 105, 4368, 107,
        818, 5279, 529, 7001, 563, 9079, 236761, 106, 107, 105, 2364, 107, 3689, 563, 506,
        5279, 529, 9405, 236881, 106, 107, 105, 4368, 107, 818, 5279, 529, 9405, 563, 15687,
        236761, 106, 107,
    ];
    let answer_start_id = Some(4368);
    let answer_end_id = Some(106);
    let pad_id = None;
    // One way to think of loss mask is like setting -100 for labels
    // that are not in the answer
    let loss_mask = create_loss_mask(input_ids, true, answer_start_id, answer_end_id, pad_id);
    assert_eq!(
        loss_mask,
        vec![
            false, false, false, false, false, false, false, false, false, false, false, false,
            false, false, true, true, true, true, true, true, true, true, true, false, false,
            false, false, false, false, false, false, false, false, false, false, false, false,
            false, true, true, true, true, true, true, true, true, true, false, false
        ]
    );
    let pad_id = Some(5279);
    // Inject a pad id to test
    let input_ids = vec![
        2, 105, 2364, 107, 3689, 563, 506, 5279, 529, 7001, 236881, 106, 107, 105, 4368, 107,
        818, 5279, 529, 7001, 563, 9079, 236761, 106, 107, 105, 2364, 107, 3689, 563, 506,
        5279, 529, 9405, 236881, 106, 107, 105, 4368, 107, 818, 5279, 529, 9405, 563, 15687,
        236761, 106, 107,
    ];
    let loss_mask = create_loss_mask(input_ids, true, answer_start_id, answer_end_id, pad_id);
    assert_eq!(
        loss_mask,
        vec![
            false, false, false, false, false, false, false, false, false, false, false, false,
            false, false, true, true, true, false, true, true, true, true, true, false, false,
            false, false, false, false, false, false, false, false, false, false, false, false,
            false, true, true, true, false, true, true, true, true, true, false, false
        ]
    );
}

#[test]
fn loss_mask_pad_is_forced_false() {
    // a pad position never contributes, in either mode
    let loss_mask = create_loss_mask(vec![1, 9, 3], false, None, None, Some(9));
    assert_eq!(loss_mask, vec![false, false, true]);
    let loss_mask = create_loss_mask(vec![7, 9, 3, 8], true, Some(7), Some(8), Some(9));
    assert_eq!(loss_mask, vec![true, false, true, false]);
}

#[test]
fn nemo_options_builder_validates() {
    let built = NemoOptions::builder()
        .answer_loss_only(true)
        .answer_start_id(Some(10))
        .build();
    assert!(built.is_err());
    assert_eq!(built.err(), Some(PackError::InvalidOptions));

    let built = NemoOptions::builder()
        .answer_loss_only(true)
        .answer_start_id(Some(10))
        .answer_end_id(Some(20))
        .build()
        .unwrap();
    assert_eq!(built.answer_start_id, Some(10));
    assert_eq!(built.answer_end_id, Some(20));
    assert!(built.answer_loss_only);

    // boundary ids are cleared when answer_loss_only is off
    let built = NemoOptions::builder()
        .answer_start_id(Some(10))
        .answer_end_id(Some(20))
        .build()
        .unwrap();
    assert_eq!(built.answer_start_id, None);
    assert_eq!(built.answer_end_id, None);
    assert!(!built.answer_loss_only);
}
