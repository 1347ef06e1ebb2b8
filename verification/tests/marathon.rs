use cheat_ccv3_pp::marathon::{decay_plan, streak_lengths, streaks_fit};

#[test]
fn streaks_count_similar_minutes() {
    let similar = [true, true, true, false, true, true];
    assert_eq!(streak_lengths(&similar), vec![0, 1, 2, 0, 1, 2]);
}

#[test]
fn first_minute_never_counts() {
    assert_eq!(streak_lengths(&[true]), vec![0]);
    assert_eq!(streak_lengths(&[false, false]), vec![0, 0]);
    assert!(streak_lengths(&[]).is_empty());
}

#[test]
fn short_maps_get_no_plan() {
    assert_eq!(decay_plan(&[], 5), None);
    assert_eq!(decay_plan(&[true], 5), None);
}

#[test]
fn divisor_doubles_from_the_fifth_similar_minute() {
    let similar = [false, true, true, true, true, true, true, false, true];
    let plan = decay_plan(&similar, 5).unwrap();
    assert_eq!(
        plan,
        vec![
            (0, false),
            (1, false),
            (2, false),
            (3, false),
            (4, false),
            (5, true),
            (6, true),
            (0, false),
            (1, false),
        ]
    );
}

#[test]
fn double_at_zero_doubles_every_minute() {
    let plan = decay_plan(&[false, false, true], 0).unwrap();
    assert_eq!(plan, vec![(0, true), (0, true), (1, true)]);
}

#[test]
fn streak_never_exceeds_index() {
    let similar: Vec<bool> = (0..100).map(|i| i % 7 != 3).collect();
    let r = streak_lengths(&similar);
    for (k, &s) in r.iter().enumerate() {
        assert!(s as usize <= k);
        let s = s as usize;
        for j in (k - s + 1)..=k {
            assert!(j >= 1 && similar[j]);
        }
        assert!(k - s == 0 || !similar[k - s]);
    }
}

#[test]
fn ordinary_maps_fit_their_streaks() {
    assert!(streaks_fit(&[]));
    assert!(streaks_fit(&[true, true, true]));
    let similar = vec![true; 10_000];
    assert!(streaks_fit(&similar));
}
