use benchmark::stats::statistic;

fn nanos(seconds: f64) -> u64 {
    (seconds * 1e9) as u64
}

fn seconds(nanos: u64) -> f32 {
    (nanos as f64 / 1e9) as f32
}

#[test]
fn stats_basic() {
    let data = [
        nanos(10.0),
        nanos(12.0),
        nanos(23.0),
        nanos(23.0),
        nanos(16.0),
        nanos(23.0),
        nanos(21.0),
        nanos(16.0),
    ];
    let (mean, std_dev) = statistic(&data).unwrap();

    assert_eq!(18.0, seconds(mean));
    assert_eq!(4.8989797, seconds(std_dev));
}

#[test]
fn stats_none() {
    let data = [];
    assert!(statistic(&data).is_none());
}

#[test]
fn stats_basic_in_nanoseconds() {
    let data = [
        10_000_000_000,
        12_000_000_000,
        23_000_000_000,
        23_000_000_000,
        16_000_000_000,
        23_000_000_000,
        21_000_000_000,
        16_000_000_000,
    ];
    // the variance is 24 s^2, and the square root of 24 is 4.898979485566...
    assert_eq!(statistic(&data), Some((18_000_000_000, 4_898_979_485)));
}

#[test]
fn stats_whole_results() {
    // mean 5, variance 4
    assert_eq!(statistic(&[2, 4, 4, 4, 5, 5, 7, 9]), Some((5, 2)));
}

#[test]
fn stats_round_down() {
    // mean 2.5, variance 1.25, deviation 1.118...
    assert_eq!(statistic(&[1, 2, 3, 4]), Some((2, 1)));
    assert_eq!(statistic(&[1000, 2000, 3000, 4000]), Some((2500, 1118)));
    // mean 1.5, deviation 0.5
    assert_eq!(statistic(&[1, 2]), Some((1, 0)));
    // mean 1.916..., variance 3.743..., deviation 1.934...
    assert_eq!(statistic(&[0, 0, 0, 4, 4, 4, 4, 0, 0, 4, 0, 3]), Some((1, 1)));
}

#[test]
fn stats_divide_by_the_number_of_samples() {
    // the squared distances from the mean 3 sum to 8: the population
    // deviation is the root of 8 / 2, the sample deviation would be that of 8 / 1
    assert_eq!(statistic(&[1, 5]), Some((3, 2)));
    // sum of squared distances 200: 200 / 2 = 100, root 10
    assert_eq!(statistic(&[10, 30]), Some((20, 10)));
}

#[test]
fn stats_single_sample() {
    assert_eq!(statistic(&[0]), Some((0, 0)));
    assert_eq!(statistic(&[7]), Some((7, 0)));
    assert_eq!(statistic(&[u64::MAX]), Some((u64::MAX, 0)));
}

#[test]
fn stats_equal_samples() {
    assert_eq!(statistic(&[42; 9]), Some((42, 0)));
    assert_eq!(statistic(&[u64::MAX; 5]), Some((u64::MAX, 0)));
}

#[test]
fn stats_largest_samples() {
    // two samples as far apart as can be: half of that on either side of the mean
    assert_eq!(
        statistic(&[u64::MAX, 0]),
        Some((9_223_372_036_854_775_807, 9_223_372_036_854_775_807))
    );
    assert_eq!(
        statistic(&[0, u64::MAX, 0, u64::MAX]),
        Some((9_223_372_036_854_775_807, 9_223_372_036_854_775_807))
    );
    // one of three: mean a third of it, deviation that times the root of 2
    assert_eq!(
        statistic(&[u64::MAX, 0, 0]),
        Some((6_148_914_691_236_517_205, 8_695_878_550_221_854_807))
    );
}

#[test]
fn stats_order_does_not_matter() {
    let a = statistic(&[3, 1, 4, 1, 5, 9, 2, 6]);
    let b = statistic(&[9, 6, 5, 4, 3, 2, 1, 1]);
    assert_eq!(a, b);
    assert_eq!(a, Some((3, 2)));
}

#[test]
fn stats_many_samples() {
    let data: Vec<u64> = (0..1000u64).map(|i| 1_000_000 + (i % 2) * 2).collect();
    // half the samples one below the mean, half of them one above
    assert_eq!(statistic(&data), Some((1_000_001, 1)));
}
