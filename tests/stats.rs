use rpg_dice_sim::{compute_stats, Stats};

fn mean(s: &Stats) -> f64 {
    s.sum as f64 / s.count as f64
}

#[test]
fn stats_of_nothing() {
    assert!(compute_stats(&[]).is_none());
}

#[test]
fn stats_of_one() {
    let s = compute_stats(&[5]).unwrap();
    assert_eq!(s, Stats { count: 1, min: 5, max: 5, sum: 5 });
    assert_eq!(mean(&s), 5.0);
}

#[test]
fn stats_of_three() {
    let s = compute_stats(&[1, 2, 3]).unwrap();
    assert_eq!((s.count, s.min, s.max), (3, 1, 3));
    assert_eq!(mean(&s), 2.0);
}

#[test]
fn stats_order_and_extremes() {
    let s = compute_stats(&[4, -9, i32::MAX, 0, i32::MIN, i32::MAX]).unwrap();
    assert_eq!(s.count, 6);
    assert_eq!(s.min, i32::MIN);
    assert_eq!(s.max, i32::MAX);
    assert_eq!(s.sum, 4 - 9 + 2 * (i32::MAX as i128) + i32::MIN as i128);
}
