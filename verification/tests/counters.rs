use uscope::cpu::counters::{
    counter_delta_at, counter_downsample_minmax, counter_value_at, counter_window,
};
use uscope::cpu::types::{CounterDisplayMode, CounterSeries};

fn counter_rate_at(series: &CounterSeries, cycle: u32, window: u32) -> f64 {
    let (growth, length) = counter_window(series, cycle, window);
    if length == 0 {
        0.0
    } else {
        growth as f64 / length as f64
    }
}

#[test]
fn test_counter_value_at() {
    let series = CounterSeries {
        name: "committed_insns".to_string(),
        samples: vec![(0, 0), (2, 5), (4, 8)],
        default_mode: CounterDisplayMode::Total,
    };
    assert_eq!(counter_value_at(&series, 0), 0);
    assert_eq!(counter_value_at(&series, 2), 5);
    assert_eq!(counter_value_at(&series, 4), 8);
    // Between samples: uses previous sample
    assert_eq!(counter_value_at(&series, 1), 0);
    assert_eq!(counter_value_at(&series, 3), 5);
    // Beyond range: uses last sample
    assert_eq!(counter_value_at(&series, 100), 8);
}

#[test]
fn test_counter_rate_at() {
    let series = CounterSeries {
        name: "committed_insns".to_string(),
        samples: vec![(0, 0), (2, 4), (4, 8)],
        default_mode: CounterDisplayMode::Rate,
    };
    // Rate over 2-cycle window at cycle 4: (8-4)/2 = 2.0
    assert!((counter_rate_at(&series, 4, 2) - 2.0).abs() < f64::EPSILON);
    // Rate at cycle 0 with window 2: (0-0)/0 = 0 (edge case)
    assert!((counter_rate_at(&series, 0, 2) - 0.0).abs() < f64::EPSILON);
}

#[test]
fn test_counter_delta_at() {
    let series = CounterSeries {
        name: "bp_misses".to_string(),
        samples: vec![(0, 0), (2, 4), (4, 10)],
        default_mode: CounterDisplayMode::Total,
    };
    // At cycle 0 (exact match, first sample): delta is 0 (value/cycle=0/0)
    assert_eq!(counter_delta_at(&series, 0), 0);
    // At cycle 1 (between 0 and 2): avg rate = 4/2 = 2
    assert_eq!(counter_delta_at(&series, 1), 2);
    // At cycle 3 (between 2 and 4): avg rate = 6/2 = 3
    assert_eq!(counter_delta_at(&series, 3), 3);
}

#[test]
fn test_counter_downsample_minmax() {
    let series = CounterSeries {
        name: "test".to_string(),
        samples: vec![(0, 0), (5, 5), (10, 20)],
        default_mode: CounterDisplayMode::Total,
    };

    // 2 buckets over 10 cycles: bucket 0 = cycles 0..5, bucket 1 = cycles 5..10
    let result = counter_downsample_minmax(&series, 0, 10, 2);
    assert_eq!(result.len(), 2);
    assert!(result[0].1 > 0, "bucket 0 should be non-zero");
    assert!(
        result[1].1 > result[0].1,
        "bucket 1 (rate=3) > bucket 0 (rate=1)"
    );
    // Check approximate ratio: bucket1 / bucket0 ~ 3
    let ratio = result[1].1 as f64 / result[0].1 as f64;
    assert!(
        (ratio - 3.0).abs() < 0.1,
        "rate ratio should be ~3, got {}",
        ratio
    );

    // Edge case: empty range
    assert_eq!(counter_downsample_minmax(&series, 5, 5, 10).len(), 0);
    // Edge case: zero buckets
    assert_eq!(counter_downsample_minmax(&series, 0, 10, 0).len(), 0);
}
