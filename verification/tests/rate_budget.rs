use crawler::rate::RateBudget;

#[test]
fn quota_is_enforced_at_one_instant() {
    let mut b = RateBudget::new(2, 60_000);
    assert!(b.try_acquire(1_000));
    assert!(b.try_acquire(1_000));
    assert!(!b.try_acquire(1_000));
    assert!(!b.try_acquire(2_000));
}

#[test]
fn tokens_age_out_of_the_window() {
    let mut b = RateBudget::new(2, 60_000);
    assert!(b.try_acquire(1_000));
    assert!(b.try_acquire(1_000));
    assert!(!b.try_acquire(60_999));
    assert!(b.try_acquire(61_000));
    assert!(b.try_acquire(61_000));
    assert!(!b.try_acquire(61_000));
}

#[test]
fn rolling_window_never_exceeds_quota() {
    let quota = 3u32;
    let window = 10_000u64;
    let mut b = RateBudget::new(quota, window);
    let mut granted: Vec<u64> = Vec::new();
    let mut t = 0u64;
    while t < 100_000 {
        if b.try_acquire(t) {
            granted.push(t);
        }
        t += 700;
    }
    assert!(!granted.is_empty());
    for &end in &granted {
        let in_window =
            granted.iter().filter(|&&g| g <= end && g + window > end).count();
        assert!(in_window <= quota as usize);
    }
}

#[test]
fn clock_going_backwards_is_clamped() {
    let mut b = RateBudget::new(1, 10_000);
    assert!(b.try_acquire(50_000));
    assert!(!b.try_acquire(1));
    assert!(b.try_acquire(60_000));
}
