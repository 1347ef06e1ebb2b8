use cheat_ccv3_pp::sections::{
    peaks_per_section, rounded_ratio, section_bounds, sections_per_15s, sections_per_minute,
    MINUTE_MS, SHORT_SECTION_MS,
};

#[test]
fn fifteen_second_sections_hold_38_peaks() {
    assert_eq!(peaks_per_section(SHORT_SECTION_MS), 38);
}

#[test]
fn minute_sections_hold_150_peaks() {
    assert_eq!(peaks_per_section(MINUTE_MS), 150);
}

#[test]
fn rounding_goes_half_up() {
    assert_eq!(rounded_ratio(75, 2), 38);
    assert_eq!(rounded_ratio(74, 2), 37);
    assert_eq!(rounded_ratio(7, 3), 2);
    assert_eq!(rounded_ratio(8, 3), 3);
    assert_eq!(rounded_ratio(0, 5), 0);
    assert_eq!(rounded_ratio(u64::MAX, 1), u64::MAX);
    assert_eq!(rounded_ratio(u64::MAX, 2), u64::MAX / 2 + 1);
}

#[test]
fn no_peaks_no_sections() {
    assert!(sections_per_15s(0, 100).is_empty());
    assert!(sections_per_minute(300, 0).is_empty());
    assert!(section_bounds(0, 0, 7).is_empty());
}

#[test]
fn sections_follow_the_shorter_series() {
    assert_eq!(sections_per_15s(80, 100), vec![(0, 38), (38, 76), (76, 80)]);
    assert_eq!(sections_per_15s(100, 76), vec![(0, 38), (38, 76)]);
}

#[test]
fn minute_sections_split_at_150() {
    assert_eq!(sections_per_minute(301, 400), vec![(0, 150), (150, 300), (300, 301)]);
    assert_eq!(sections_per_minute(150, 150), vec![(0, 150)]);
    assert_eq!(sections_per_minute(1, 5), vec![(0, 1)]);
}

#[test]
fn sections_tile_every_peak_once() {
    for len in 0..200usize {
        for per in 1..20usize {
            let s = section_bounds(len, len + 3, per);
            assert_eq!(s.len(), (len + per - 1) / per);
            let mut next = 0;
            for (k, &(a, b)) in s.iter().enumerate() {
                assert_eq!(a, next);
                assert!(a < b);
                assert!(b - a <= per);
                if k + 1 < s.len() {
                    assert_eq!(b - a, per);
                }
                next = b;
            }
            assert_eq!(next, len);
            for i in 0..len {
                let (a, b) = s[i / per];
                assert!(a <= i && i < b);
            }
        }
    }
}
