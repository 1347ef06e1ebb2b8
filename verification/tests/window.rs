use cheat_ccv3_pp::window::{evaluation_pair, previous_index, window_sample, window_sample_within};

#[test]
fn previous_counts_back_from_one_before() {
    assert_eq!(previous_index(5, 0, 10), Some(4));
    assert_eq!(previous_index(5, 1, 10), Some(3));
    assert_eq!(previous_index(5, 4, 10), Some(0));
    assert_eq!(previous_index(5, 5, 10), None);
    assert_eq!(previous_index(0, 0, 10), None);
    assert_eq!(previous_index(12, 0, 10), None);
}

#[test]
fn window_takes_current_then_nearest_first() {
    let values = [Some(10), Some(11), Some(12), Some(13), Some(14)];
    assert_eq!(window_sample(&values, 4, 2), vec![14, 13, 12]);
    assert_eq!(window_sample(&values, 4, 8), vec![14, 13, 12, 11, 10]);
    assert_eq!(window_sample(&values, 0, 8), vec![10]);
    assert_eq!(window_sample(&values, 3, 0), vec![13]);
}

#[test]
fn window_skips_missing_values() {
    let values = [Some(1), None, Some(3), None, None];
    assert_eq!(window_sample(&values, 4, 8), vec![3, 1]);
    assert_eq!(window_sample(&values, 4, 1), Vec::<i32>::new());
    assert_eq!(window_sample(&values, 2, 1), vec![3]);
}

#[test]
fn pair_needs_two_predecessors() {
    let spinners = [false, false, false, false];
    assert_eq!(evaluation_pair(&spinners, 0, false), None);
    assert_eq!(evaluation_pair(&spinners, 1, false), None);
    assert_eq!(evaluation_pair(&spinners, 2, false), Some((0, 1)));
    assert_eq!(evaluation_pair(&spinners, 3, false), Some((1, 2)));
    assert_eq!(evaluation_pair(&spinners, 4, false), Some((2, 3)));
    assert_eq!(evaluation_pair(&spinners, 5, false), None);
}

#[test]
fn spinners_stop_the_pair() {
    let spinners = [true, false, true, false, false];
    assert_eq!(evaluation_pair(&spinners, 2, false), Some((0, 1)));
    assert_eq!(evaluation_pair(&spinners, 2, true), None);
    assert_eq!(evaluation_pair(&spinners, 3, false), None);
    assert_eq!(evaluation_pair(&spinners, 4, false), Some((2, 3)));
}

#[test]
fn angle_window_counts_current_within_window() {
    let values = [Some(10), Some(11), Some(12), Some(13), Some(14)];
    assert_eq!(window_sample_within(&values, 4, 3), vec![14, 13, 12]);
    assert_eq!(window_sample_within(&values, 4, 8), vec![14, 13, 12, 11, 10]);
    assert_eq!(window_sample_within(&values, 4, 1), vec![14]);
    assert_eq!(window_sample_within(&values, 4, 0), Vec::<i32>::new());
    assert_eq!(window_sample_within(&values, 1, 6), vec![11, 10]);
}

#[test]
fn angle_window_never_exceeds_window() {
    let values: Vec<Option<u32>> = (0..40).map(Some).collect();
    for idx in 0..40usize {
        for window in 0..12usize {
            let s = window_sample_within(&values, idx, window);
            assert!(s.len() <= window);
            assert_eq!(s.len(), window.min(idx + 1));
            for (j, &v) in s.iter().enumerate() {
                assert_eq!(v as usize, idx - j);
            }
        }
    }
}

#[test]
fn angle_window_skips_missing_angles() {
    let values = [Some(1), None, Some(3), None, Some(5)];
    assert_eq!(window_sample_within(&values, 4, 3), vec![5, 3]);
    assert_eq!(window_sample_within(&values, 4, 2), vec![5]);
    assert_eq!(window_sample_within(&values, 3, 2), vec![3]);
}
