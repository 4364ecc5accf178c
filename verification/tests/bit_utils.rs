use merkle_bit::bits::{choose_zero, fast_log_2, first_diff_bit, keys_equal};
use merkle_bit::utils::{calc_min_split_index, check_descendants, split_pairs};
use merkle_bit::KEY_LEN;

#[test]
fn it_chooses_the_right_branch_easy() {
    let key = [0x0F; KEY_LEN];
    for i in 0..8 {
        let expected_branch;
        if i < 4 {
            expected_branch = true;
        } else {
            expected_branch = false;
        }
        let branch = choose_zero(&key, i);
        assert_eq!(branch, expected_branch);
    }
}

#[test]
fn it_chooses_the_right_branch_medium() {
    let key = [0x55; KEY_LEN];
    for i in 0..8 {
        let expected_branch;
        if i % 2 == 0 {
            expected_branch = true;
        } else {
            expected_branch = false;
        }
        let branch = choose_zero(&key, i);
        assert_eq!(branch, expected_branch);
    }
    let key = [0xAA; KEY_LEN];
    for i in 0..8 {
        let expected_branch;
        if i % 2 == 0 {
            expected_branch = false;
        } else {
            expected_branch = true;
        }
        let branch = choose_zero(&key, i);
        assert_eq!(branch, expected_branch);
    }
}

#[test]
fn it_chooses_the_right_branch_hard() {
    let key = [0x68; KEY_LEN];
    for i in 0..8 {
        let expected_branch;
        if i == 1 || i == 2 || i == 4 {
            expected_branch = false;
        } else {
            expected_branch = true;
        }
        let branch = choose_zero(&key, i);
        assert_eq!(branch, expected_branch);
    }

    let key = [0xAB; KEY_LEN];
    for i in 0..8 {
        let expected_branch;
        if i == 0 || i == 2 || i == 4 || i == 6 || i == 7 {
            expected_branch = false;
        } else {
            expected_branch = true;
        }
        let branch = choose_zero(&key, i);
        assert_eq!(branch, expected_branch);
    }
}

#[test]
fn it_splits_an_all_zeros_sorted_list_of_pairs() {
    let zero_key = [0x00u8; KEY_LEN];
    let keys = vec![
        zero_key, zero_key, zero_key, zero_key, zero_key, zero_key, zero_key, zero_key, zero_key,
        zero_key,
    ];

    let result = split_pairs(&keys, 0);
    assert_eq!(result.0.len(), 10);
    assert_eq!(result.1.len(), 0);
    for i in 0..result.0.len() {
        assert_eq!(result.0[i], [0x00u8; KEY_LEN]);
    }
}

#[test]
fn it_splits_an_all_ones_sorted_list_of_pairs() {
    let one_key = [0xFFu8; KEY_LEN];
    let keys = vec![
        one_key, one_key, one_key, one_key, one_key, one_key, one_key, one_key, one_key, one_key,
    ];
    let result = split_pairs(&keys, 0);
    assert_eq!(result.0.len(), 0);
    assert_eq!(result.1.len(), 10);
    for i in 0..result.1.len() {
        assert_eq!(result.1[i], [0xFFu8; KEY_LEN]);
    }
}

#[test]
fn it_splits_an_even_length_sorted_list_of_pairs() {
    let zero_key = [0x00u8; KEY_LEN];
    let one_key = [0xFFu8; KEY_LEN];
    let keys = vec![
        zero_key, zero_key, zero_key, zero_key, zero_key, one_key, one_key, one_key, one_key,
        one_key,
    ];
    let result = split_pairs(&keys, 0);
    assert_eq!(result.0.len(), 5);
    assert_eq!(result.1.len(), 5);
    for i in 0..result.0.len() {
        assert_eq!(result.0[i], [0x00u8; KEY_LEN]);
    }
    for i in 0..result.1.len() {
        assert_eq!(result.1[i], [0xFFu8; KEY_LEN]);
    }
}

#[test]
fn it_splits_an_odd_length_sorted_list_of_pairs_with_more_zeros() {
    let zero_key = [0x00u8; KEY_LEN];
    let one_key = [0xFFu8; KEY_LEN];
    let keys = vec![
        zero_key, zero_key, zero_key, zero_key, zero_key, zero_key, one_key, one_key, one_key,
        one_key, one_key,
    ];
    let result = split_pairs(&keys, 0);
    assert_eq!(result.0.len(), 6);
    assert_eq!(result.1.len(), 5);
    for i in 0..result.0.len() {
        assert_eq!(result.0[i], [0x00u8; KEY_LEN]);
    }
    for i in 0..result.1.len() {
        assert_eq!(result.1[i], [0xFFu8; KEY_LEN]);
    }
}

#[test]
fn it_splits_an_odd_length_sorted_list_of_pairs_with_more_ones() {
    let zero_key = [0x00u8; KEY_LEN];
    let one_key = [0xFFu8; KEY_LEN];
    let keys = vec![
        zero_key, zero_key, zero_key, zero_key, zero_key, one_key, one_key, one_key, one_key,
        one_key, one_key,
    ];

    let result = split_pairs(&keys, 0);
    assert_eq!(result.0.len(), 5);
    assert_eq!(result.1.len(), 6);
    for i in 0..result.0.len() {
        assert_eq!(result.0[i], [0x00u8; KEY_LEN]);
    }
    for i in 0..result.1.len() {
        assert_eq!(result.1[i], [0xFFu8; KEY_LEN]);
    }
}

#[test]
fn fast_log_2_finds_the_top_bit() {
    assert_eq!(fast_log_2(1), 0);
    assert_eq!(fast_log_2(2), 1);
    assert_eq!(fast_log_2(3), 1);
    assert_eq!(fast_log_2(0x40), 6);
    assert_eq!(fast_log_2(0xFF), 7);
    assert_eq!(fast_log_2(0), 0);
}

#[test]
fn first_diff_bit_locates_the_earliest_divergence() {
    let a = [0x00u8; KEY_LEN];
    let mut b = [0x00u8; KEY_LEN];
    assert_eq!(first_diff_bit(&a, &b), None);
    assert!(keys_equal(&a, &b));

    b[0] = 0x80;
    assert_eq!(first_diff_bit(&a, &b), Some(0));

    b[0] = 0x00;
    b[2] = 0x01;
    assert_eq!(first_diff_bit(&a, &b), Some(23));
    assert!(!keys_equal(&a, &b));
}

#[test]
fn min_split_index_takes_the_earliest_divergence_of_the_batch() {
    let branch_key = [0x00u8; KEY_LEN];
    let mut near = [0x00u8; KEY_LEN];
    near[31] = 0x01;
    let mut far = [0x00u8; KEY_LEN];
    far[0] = 0x01;
    let keys = vec![near, far];
    assert_eq!(calc_min_split_index(&keys, &branch_key), 7);
    let keys = vec![near];
    assert_eq!(calc_min_split_index(&keys, &branch_key), 255);
    let keys = vec![branch_key];
    assert_eq!(calc_min_split_index(&keys, &branch_key), 256);
}

#[test]
fn check_descendants_keeps_only_keys_under_the_branch() {
    let branch_key = [0x00u8; KEY_LEN];
    let mut inside = [0x00u8; KEY_LEN];
    inside[31] = 0x03;
    let mut outside = [0x00u8; KEY_LEN];
    outside[0] = 0x80;
    let keys = vec![inside, outside];
    let min_split = calc_min_split_index(&keys, &branch_key);
    let kept = check_descendants(&keys, 100, &branch_key, min_split);
    assert_eq!(kept.len(), 1);
    assert_eq!(kept[0], inside);
}
