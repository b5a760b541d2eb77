use tf_rosrust::{
    add_time_and_duration, duration_as_ns_i64, is_time_in_range_eq, is_time_later,
    sub_duration_from_time, sub_time_and_time, time_as_ns_i64, time_from_nanosec, Duration, Time,
};

fn times_and_durations_for_test() -> (Time, Time, Time, Time, Duration, Duration) {
    let time1 = Time {
        sec: 10,
        nanosec: 234_567_890,
    };
    let time2 = Time {
        sec: 10,
        nanosec: 345_678_901,
    };
    let time3 = Time {
        sec: 9,
        nanosec: 456_789_012,
    };
    let time4 = Time {
        sec: -10,
        nanosec: 345_678_901,
    };
    let duration1 = Duration {
        sec: 1,
        nanosec: 100_000_000,
    };
    let duration2 = Duration {
        sec: 1,
        nanosec: 999_999_999,
    };

    (time1, time2, time3, time4, duration1, duration2)
}

#[test]
fn test_time_from_nanosec() {
    let expected = Time {
        sec: 1,
        nanosec: 234_567_890,
    };
    let time = time_from_nanosec(1_234_567_890);

    assert_eq!(time.sec, expected.sec);
    assert_eq!(time.nanosec, expected.nanosec);
}

#[test]
fn test_sub_time_and_time() {
    let expected_dif1 = Time {
        sec: 0,
        nanosec: 111_111_011,
    };
    let expected_dif2 = Time {
        sec: 0,
        nanosec: 888_889_889,
    };
    // (-10 s, 345_678_901 ns) stands for -9.654321099 s, so the difference is exactly 20 s.
    let expected_dif3 = Time { sec: 20, nanosec: 0 };

    let (t1, t2, t3, t4, _, _) = times_and_durations_for_test();

    let dif1 = sub_time_and_time(&t2, &t1);
    let dif2 = sub_time_and_time(&t2, &t3);
    let dif3 = sub_time_and_time(&t2, &t4);

    assert_eq!(dif1.sec, expected_dif1.sec);
    assert_eq!(dif1.nanosec, expected_dif1.nanosec);
    assert_eq!(dif2.sec, expected_dif2.sec);
    assert_eq!(dif2.nanosec, expected_dif2.nanosec);
    assert_eq!(dif3.sec, expected_dif3.sec);
    assert_eq!(dif3.nanosec, expected_dif3.nanosec);
}

#[test]
fn test_add_time_and_duration() {
    let expected_sum1 = Time {
        sec: 11,
        nanosec: 334_567_890,
    };
    let expected_sum2 = Time {
        sec: 12,
        nanosec: 234_567_889,
    };

    let (t1, _, _, _, d1, d2) = times_and_durations_for_test();

    let sum1 = add_time_and_duration(&t1, &d1);
    let sum2 = add_time_and_duration(&t1, &d2);

    assert_eq!(sum1.sec, expected_sum1.sec);
    assert_eq!(sum1.nanosec, expected_sum1.nanosec);
    assert_eq!(sum2.sec, expected_sum2.sec);
    assert_eq!(sum2.nanosec, expected_sum2.nanosec);
}

#[test]
fn test_sub_duration_from_time() {
    let expected_dif1 = Time {
        sec: 9,
        nanosec: 134_567_890,
    };
    let expected_dif2 = Time {
        sec: 8,
        nanosec: 234_567_891,
    };

    let (t1, _, _, _, d1, d2) = times_and_durations_for_test();

    let dif1 = sub_duration_from_time(&t1, &d1);
    let dif2 = sub_duration_from_time(&t1, &d2);

    assert_eq!(dif1.sec, expected_dif1.sec);
    assert_eq!(dif1.nanosec, expected_dif1.nanosec);
    assert_eq!(dif2.sec, expected_dif2.sec);
    assert_eq!(dif2.nanosec, expected_dif2.nanosec);
}

#[test]
fn test_time_as_ns_i64() {
    let (t1, _, _, _, _, _) = times_and_durations_for_test();

    assert_eq!(time_as_ns_i64(&t1), 10_234_567_890);
}

#[test]
fn test_is_time_in_range_eq() {
    let (t1, t2, t3, _, _, _) = times_and_durations_for_test();

    assert!(is_time_in_range_eq(&t1, &t3, &t2));
    assert!(!is_time_in_range_eq(&t2, &t3, &t1));
}

#[test]
fn range_bounds_are_inclusive() {
    let (t1, t2, _, _, _, _) = times_and_durations_for_test();

    assert!(is_time_in_range_eq(&t1, &t1, &t2));
    assert!(is_time_in_range_eq(&t2, &t1, &t2));
}

#[test]
fn negative_nanoseconds_round_down() {
    let t = time_from_nanosec(-1);
    assert_eq!(t, Time { sec: -1, nanosec: 999_999_999 });
    assert_eq!(time_as_ns_i64(&t), -1);

    let t = time_from_nanosec(-2_000_000_000);
    assert_eq!(t, Time { sec: -2, nanosec: 0 });

    let t = time_from_nanosec(-1_500_000_000);
    assert_eq!(t, Time { sec: -2, nanosec: 500_000_000 });
}

#[test]
fn zero_nanoseconds_is_epoch() {
    assert_eq!(time_from_nanosec(0), Time { sec: 0, nanosec: 0 });
}

#[test]
fn negative_difference_is_normalized() {
    let a = Time { sec: 1, nanosec: 0 };
    let b = Time { sec: 2, nanosec: 500_000_000 };
    let d = sub_time_and_time(&a, &b);
    assert_eq!(d, Duration { sec: -2, nanosec: 500_000_000 });
    assert_eq!(duration_as_ns_i64(&d), -1_500_000_000);
}

#[test]
fn adding_a_negative_duration_borrows() {
    let t = Time { sec: 3, nanosec: 100 };
    let d = Duration { sec: -1, nanosec: 999_999_000 };
    assert_eq!(add_time_and_duration(&t, &d), Time { sec: 2, nanosec: 999_999_100 });
    assert_eq!(sub_duration_from_time(&t, &d), Time { sec: 3, nanosec: 1_100 });
}

#[test]
fn later_is_strict() {
    let a = Time { sec: 1, nanosec: 5 };
    let b = Time { sec: 1, nanosec: 6 };
    assert!(is_time_later(&b, &a));
    assert!(!is_time_later(&a, &b));
    assert!(!is_time_later(&a, &a));
}

#[test]
fn unnormalized_fields_count_by_nanoseconds() {
    let a = Time { sec: 0, nanosec: 1_500_000_000 };
    assert_eq!(time_as_ns_i64(&a), 1_500_000_000);
    let b = Time { sec: 1, nanosec: 500_000_000 };
    assert!(!is_time_later(&a, &b));
    assert_eq!(sub_time_and_time(&a, &b), Duration { sec: 0, nanosec: 0 });
}
