use rpg_dice_sim::{DiceTerm, Expression, FlatMod, ParseError};

#[test]
fn parse_basic() {
    let e = Expression::parse("2d6+3").unwrap();
    assert_eq!(e.dice.len(), 1);
    assert_eq!(e.flats.len(), 1);
    assert_eq!(e.dice[0].count, 2);
    assert_eq!(e.dice[0].sides, 6);
    assert_eq!(e.flats[0].value, 3);
}

#[test]
fn parse_multiple_terms() {
    let e = Expression::parse("3d6+2d8-1").unwrap();
    assert_eq!(e.dice.len(), 2);
    assert_eq!(e.flats.len(), 1);
    assert_eq!(e.flats[0].sign, -1);
    assert_eq!(e.flats[0].value, 1);
}

#[test]
fn parse_implicit_one() {
    let e = Expression::parse("d20+5").unwrap();
    assert_eq!(e.dice[0].count, 1);
    assert_eq!(e.dice[0].sides, 20);
    assert_eq!(e.flats[0].value, 5);
}

#[test]
fn parse_basic_exact_terms() {
    let e = Expression::parse("2d6+3").unwrap();
    assert_eq!(e.dice, vec![DiceTerm { sign: 1, count: 2, sides: 6 }]);
    assert_eq!(e.flats, vec![FlatMod { sign: 1, value: 3 }]);
}

#[test]
fn parse_multiple_terms_exact() {
    let e = Expression::parse("3d6+2d8-1").unwrap();
    assert_eq!(
        e.dice,
        vec![DiceTerm { sign: 1, count: 3, sides: 6 }, DiceTerm { sign: 1, count: 2, sides: 8 }]
    );
    assert_eq!(e.flats, vec![FlatMod { sign: -1, value: 1 }]);
}

#[test]
fn parse_implicit_one_exact() {
    let e = Expression::parse("d20+5").unwrap();
    assert_eq!(e.dice, vec![DiceTerm { sign: 1, count: 1, sides: 20 }]);
    assert_eq!(e.flats, vec![FlatMod { sign: 1, value: 5 }]);
}

#[test]
fn parse_strips_whitespace_and_keeps_order() {
    let e = Expression::parse(" 1d4 - 2d10 +\t7 - 3 ").unwrap();
    assert_eq!(
        e.dice,
        vec![DiceTerm { sign: 1, count: 1, sides: 4 }, DiceTerm { sign: -1, count: 2, sides: 10 }]
    );
    assert_eq!(e.flats, vec![FlatMod { sign: 1, value: 7 }, FlatMod { sign: -1, value: 3 }]);
}

#[test]
fn parse_leading_minus_and_zero_modifier() {
    let e = Expression::parse("-d8-0").unwrap();
    assert_eq!(e.dice, vec![DiceTerm { sign: -1, count: 1, sides: 8 }]);
    assert_eq!(e.flats, vec![FlatMod { sign: 1, value: 0 }]);
}

#[test]
fn parse_only_flat() {
    let e = Expression::parse("+12").unwrap();
    assert!(e.dice.is_empty());
    assert_eq!(e.flats, vec![FlatMod { sign: 1, value: 12 }]);
}

#[test]
fn parse_empty_is_rejected() {
    assert_eq!(Expression::parse("").unwrap_err(), ParseError::EmptyExpression);
    assert_eq!(Expression::parse("   ").unwrap_err(), ParseError::EmptyExpression);
}

#[test]
fn parse_missing_sides_is_rejected() {
    assert_eq!(Expression::parse("2d").unwrap_err(), ParseError::InvalidSides);
    assert_eq!(Expression::parse("d").unwrap_err(), ParseError::InvalidSides);
}

#[test]
fn parse_error_variants() {
    assert_eq!(Expression::parse("-").unwrap_err(), ParseError::InvalidFlatModifier);
    assert_eq!(Expression::parse("-2147483648").unwrap_err(), ParseError::InvalidFlatModifier);
    assert_eq!(Expression::parse("2d6d8").unwrap_err(), ParseError::MalformedTerm);
    assert_eq!(Expression::parse("abc").unwrap_err(), ParseError::MalformedTerm);
    assert_eq!(Expression::parse("xd6").unwrap_err(), ParseError::InvalidCount);
    assert_eq!(Expression::parse("99999999999d6").unwrap_err(), ParseError::InvalidCount);
    assert_eq!(Expression::parse("2dx").unwrap_err(), ParseError::InvalidSides);
    assert_eq!(Expression::parse("0d6").unwrap_err(), ParseError::NonPositiveValue);
    assert_eq!(Expression::parse("3d0").unwrap_err(), ParseError::NonPositiveValue);
    assert_eq!(Expression::parse("+").unwrap_err(), ParseError::NothingToRoll);
    assert_eq!(Expression::parse("++ +").unwrap_err(), ParseError::NothingToRoll);
}

#[test]
fn parse_first_error_wins() {
    assert_eq!(Expression::parse("0d6+2dx").unwrap_err(), ParseError::NonPositiveValue);
    assert_eq!(Expression::parse("2dx+0d6").unwrap_err(), ParseError::InvalidSides);
}

#[test]
fn parse_largest_values() {
    let e = Expression::parse("4294967295d4294967295+2147483647-2147483647").unwrap();
    assert_eq!(e.dice, vec![DiceTerm { sign: 1, count: u32::MAX, sides: u32::MAX }]);
    assert_eq!(
        e.flats,
        vec![FlatMod { sign: 1, value: i32::MAX }, FlatMod { sign: -1, value: i32::MAX }]
    );
    assert_eq!(Expression::parse("1d4294967296").unwrap_err(), ParseError::InvalidSides);
    assert_eq!(Expression::parse("2147483648").unwrap_err(), ParseError::MalformedTerm);
    assert!(!e.fits_i32());
}

#[test]
fn parse_strips_unicode_whitespace() {
    let plain = Expression::parse("2d6+3").unwrap();
    for s in ["2d6\u{B}+3", "2\td6+3", "\u{A0}2d6\u{3000}+\u{2028}3", "2\u{85}d\u{2009}6 +\u{1680}3\u{205F}"] {
        let e = Expression::parse(s).unwrap();
        assert_eq!(e.dice, plain.dice);
        assert_eq!(e.flats, plain.flats);
    }
    assert_eq!(Expression::parse("\u{202F}\u{2029}\n").unwrap_err(), ParseError::EmptyExpression);
    assert_eq!(Expression::parse("2d6\u{200B}").unwrap_err(), ParseError::InvalidSides);
}
