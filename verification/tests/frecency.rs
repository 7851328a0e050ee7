use frecency_cache::frecency::{age, bump, target_for, FRECENCY_ONE};

#[test]
fn one_use_is_a_million_units() {
    assert_eq!(FRECENCY_ONE, 1_000_000);
}

#[test]
fn bump_adds_one_use() {
    assert_eq!(bump(0), 1_000_000);
    assert_eq!(bump(FRECENCY_ONE), 2_000_000);
    assert_eq!(bump(800_000), 1_800_000);
    assert_eq!(bump(2_400_000) as f64 / FRECENCY_ONE as f64, 3.4);
}

#[test]
fn bump_holds_at_the_largest_score() {
    assert_eq!(bump(u64::MAX), u64::MAX);
    assert_eq!(bump(u64::MAX - 1), u64::MAX);
    assert_eq!(bump(u64::MAX - FRECENCY_ONE), u64::MAX);
    assert_eq!(bump(u64::MAX - FRECENCY_ONE - 1), u64::MAX - 1);
}

#[test]
fn age_takes_four_fifths() {
    assert_eq!(age(0), 0);
    assert_eq!(age(FRECENCY_ONE), 800_000);
    assert_eq!(age(3 * FRECENCY_ONE), 2_400_000);
    assert_eq!(age(800_000), 640_000);
    assert_eq!(age(3 * FRECENCY_ONE) as f64 / FRECENCY_ONE as f64, 2.4);
    assert_eq!(age(FRECENCY_ONE) as f32 / FRECENCY_ONE as f32, 0.8f32);
}

#[test]
fn age_rounds_down() {
    assert_eq!(age(1), 0);
    assert_eq!(age(2), 1);
    assert_eq!(age(3), 2);
    assert_eq!(age(4), 3);
    assert_eq!(age(5), 4);
    assert_eq!(age(6), 4);
    assert_eq!(age(9), 7);
}

#[test]
fn age_of_the_largest_score_does_not_overflow() {
    assert_eq!(age(u64::MAX), 14_757_395_258_967_641_292);
    assert_eq!(age(u64::MAX) as u128, u64::MAX as u128 * 4 / 5);
}

#[test]
fn target_is_four_fifths_of_budget_rounded_down() {
    assert_eq!(target_for(0), 0);
    assert_eq!(target_for(1), 0);
    assert_eq!(target_for(4), 3);
    assert_eq!(target_for(5), 4);
    assert_eq!(target_for(20), 16);
    assert_eq!(target_for(99), 79);
    assert_eq!(target_for(100), 80);
    assert_eq!(target_for(u64::MAX) as u128, u64::MAX as u128 * 4 / 5);
}
