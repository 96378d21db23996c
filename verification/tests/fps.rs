use gouache::FpsCounter;

#[test]
fn a_new_counter_has_seen_nothing() {
    let counter = FpsCounter::new();
    assert_eq!(counter.total_micros(), 0);
}

#[test]
fn the_counter_sums_the_last_hundred_frames() {
    let mut counter = FpsCounter::new();
    for _ in 0..50 {
        counter.update(16_000);
    }
    assert_eq!(counter.total_micros(), 800_000);
    for _ in 0..50 {
        counter.update(20_000);
    }
    assert_eq!(counter.total_micros(), 1_800_000);
    // The 101st frame takes the place of the first.
    counter.update(1);
    assert_eq!(counter.total_micros(), 1_784_001);
    for _ in 0..99 {
        counter.update(1);
    }
    assert_eq!(counter.total_micros(), 100);
}

#[test]
fn the_sum_does_not_overflow() {
    let mut counter = FpsCounter::new();
    for _ in 0..250 {
        counter.update(u32::MAX);
    }
    assert_eq!(counter.total_micros(), 100 * u32::MAX as u64);
}
