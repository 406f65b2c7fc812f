use rpg_dice_sim::{compute_stats, AdvMode, DiceTerm, Expression, FlatMod, RollResult};

fn recomputed_total(r: &RollResult) -> i64 {
    let mut t = r.flat_total as i64;
    for d in &r.details {
        let s: i64 = d.rolls.iter().map(|&x| x as i64).sum();
        t += d.term.sign as i64 * s;
    }
    t
}

#[test]
fn roll_faces_in_range() {
    let e = Expression::parse("3d6+2d8-1d4+2").unwrap();
    for _ in 0..200 {
        let r = e.roll(AdvMode::Normal);
        assert_eq!(r.details.len(), 3);
        for (d, t) in r.details.iter().zip(e.dice.iter()) {
            assert_eq!(d.term, *t);
            assert_eq!(d.rolls.len(), t.count as usize);
            for &f in &d.rolls {
                assert!(1 <= f && f <= t.sides);
            }
        }
    }
}

#[test]
fn roll_total_recomputes() {
    let e = Expression::parse("4d10-2d6+d20-3+7").unwrap();
    for mode in [AdvMode::Normal, AdvMode::Advantage, AdvMode::Disadvantage] {
        for _ in 0..100 {
            let r = e.roll(mode);
            assert_eq!(r.flat_total, 4);
            assert_eq!(r.total as i64, recomputed_total(&r));
            let subs: i64 = r.details.iter().map(|d| d.subtotal as i64).sum();
            assert_eq!(r.total as i64, r.flat_total as i64 + subs);
        }
    }
}

#[test]
fn roll_draws_vary() {
    let e = Expression::parse("1d1000").unwrap();
    let faces: Vec<u32> = (0..50).map(|_| e.roll(AdvMode::Normal).details[0].rolls[0]).collect();
    assert!(faces.iter().any(|&f| f != 1000));
    assert!(faces.iter().any(|&f| f != faces[0]));
}

#[test]
fn roll_lone_d20_advantage_keeps_one_face() {
    let e = Expression::parse("d20").unwrap();
    for mode in [AdvMode::Advantage, AdvMode::Disadvantage] {
        for _ in 0..100 {
            let r = e.roll(mode);
            assert_eq!(r.details[0].rolls.len(), 1);
            let f = r.details[0].rolls[0];
            assert!(1 <= f && f <= 20);
        }
    }
}

#[test]
fn roll_with_advantage_takes_higher() {
    let e = Expression::parse("d20+1").unwrap();
    let r = e.roll_with(AdvMode::Advantage, &vec![vec![7, 15]]);
    assert_eq!(r.details[0].rolls, vec![15]);
    assert_eq!(r.details[0].subtotal, 15);
    assert_eq!(r.total, 16);
}

#[test]
fn roll_with_disadvantage_takes_lower() {
    let e = Expression::parse("-d20").unwrap();
    let r = e.roll_with(AdvMode::Disadvantage, &vec![vec![7, 15]]);
    assert_eq!(r.details[0].rolls, vec![7]);
    assert_eq!(r.details[0].subtotal, -7);
    assert_eq!(r.total, -7);
}

#[test]
fn roll_with_advantage_ignores_other_shapes() {
    let e = Expression::parse("2d20+d12").unwrap();
    let r = e.roll_with(AdvMode::Advantage, &vec![vec![3, 18], vec![11]]);
    assert_eq!(r.details[0].rolls, vec![3, 18]);
    assert_eq!(r.details[1].rolls, vec![11]);
    assert_eq!(r.total, 32);
}

#[test]
fn roll_with_normal_d20_uses_one_draw() {
    let e = Expression::parse("d20").unwrap();
    let r = e.roll_with(AdvMode::Normal, &vec![vec![9]]);
    assert_eq!(r.details[0].rolls, vec![9]);
    assert_eq!(r.total, 9);
}

#[test]
fn roll_with_exact_totals() {
    let e = Expression::parse("2d6+3").unwrap();
    let r = e.roll_with(AdvMode::Normal, &vec![vec![4, 5]]);
    assert_eq!(r.details[0].subtotal, 9);
    assert_eq!(r.flat_total, 3);
    assert_eq!(r.total, 12);
    let e = Expression::parse("3d6-2d8-1+4").unwrap();
    let r = e.roll_with(AdvMode::Normal, &vec![vec![1, 2, 3], vec![8, 7]]);
    assert_eq!(r.details[1].subtotal, -15);
    assert_eq!(r.flat_total, 3);
    assert_eq!(r.total, -6);
}

#[test]
fn roll_from_single_term() {
    let t = DiceTerm { sign: -1, count: 3, sides: 4 };
    let d = t.roll_from(AdvMode::Advantage, &vec![1, 4, 2]);
    assert_eq!(d.rolls, vec![1, 4, 2]);
    assert_eq!(d.subtotal, -7);
}

#[test]
fn keep_face_picks_by_mode() {
    assert_eq!(rpg_dice_sim::keep_face(AdvMode::Advantage, 3, 17), 17);
    assert_eq!(rpg_dice_sim::keep_face(AdvMode::Disadvantage, 3, 17), 3);
    assert_eq!(rpg_dice_sim::keep_face(AdvMode::Advantage, 12, 12), 12);
}

#[test]
fn fits_i32_bounds() {
    let e = Expression { dice: vec![DiceTerm { sign: 1, count: 2, sides: 6 }], flats: vec![FlatMod { sign: -1, value: 3 }] };
    assert!(e.fits_i32());
    let e = Expression { dice: vec![], flats: vec![FlatMod { sign: 1, value: i32::MAX }] };
    assert!(e.fits_i32());
    let e = Expression { dice: vec![DiceTerm { sign: 1, count: 1, sides: 1 }], flats: vec![FlatMod { sign: 1, value: i32::MAX }] };
    assert!(!e.fits_i32());
    let e = Expression { dice: vec![DiceTerm { sign: 1, count: 65536, sides: 32768 }], flats: vec![] };
    assert!(!e.fits_i32());
    let e = Expression { dice: vec![DiceTerm { sign: -1, count: 65536, sides: 32768 }], flats: vec![] };
    assert!(!e.fits_i32());
}

#[test]
fn opposite_signs_fit_separately() {
    let e = Expression::parse("1d2000000000-1d2000000000").unwrap();
    assert!(e.fits_i32());
    let r = e.roll_with(AdvMode::Normal, &vec![vec![2000000000], vec![1]]);
    assert_eq!(r.total, 1999999999);
    let r = e.roll(AdvMode::Normal);
    assert_eq!(r.total as i64, recomputed_total(&r));
    let e = Expression::parse("1d2000000000+1d2000000000").unwrap();
    assert!(!e.fits_i32());
}

#[test]
fn repeated_rolls_feed_stats() {
    let e = Expression::parse("3d6+2").unwrap();
    let totals: Vec<i32> = (0..40).map(|_| e.roll(AdvMode::Normal).total).collect();
    let s = compute_stats(&totals).unwrap();
    assert_eq!(s.count, 40);
    for &t in &totals {
        assert!(s.min <= t && t <= s.max);
    }
    assert!(5 <= s.min && s.max <= 20);
}
