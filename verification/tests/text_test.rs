use matrixops::element::Element;
use matrixops::matrix::Matrix;
use matrixops::rational::Rational;
use matrixops::ui::command::Command;

#[test]
fn integers_render_in_decimal() {
    assert_eq!(0i64.to_text(), "0");
    assert_eq!(42i64.to_text(), "42");
    assert_eq!((-7i64).to_text(), "-7");
    assert_eq!(1000i64.to_text(), "1000");
    assert_eq!(i64::MAX.to_text(), "9223372036854775807");
    assert_eq!(i64::MIN.to_text(), "-9223372036854775808");
}

#[test]
fn rationals_render_as_fractions() {
    assert_eq!(Rational::from_int(3).to_text(), "3");
    assert_eq!(Rational::new(1, 2).unwrap().to_text(), "1/2");
    assert_eq!(Rational::new(-3, 6).unwrap().to_text(), "-1/2");
    assert_eq!(Rational::new(5, -10).unwrap().to_text(), "-1/2");
    assert_eq!(Rational::new(0, 9).unwrap().to_text(), "0");
}

#[test]
fn matrix_renders_rows_on_lines() {
    let m = Matrix::new(2, 3, vec![1, 2, 3, 4, 5, 6]).unwrap();
    assert_eq!(m.render(), "123\n456");
    let single = Matrix::new(1, 2, vec![10, -3]).unwrap();
    assert_eq!(single.render(), "10-3");
}

#[test]
fn rational_parse_accepts_fractions_and_whole_numbers() {
    assert_eq!(Rational::parse("1/2"), Rational::new(1, 2));
    assert_eq!(Rational::parse("-3"), Some(Rational::from_int(-3)));
    assert_eq!(Rational::parse("4/6"), Rational::new(2, 3));
    assert_eq!(Rational::parse("8/-2"), Some(Rational::from_int(-4)));
    assert_eq!(Rational::parse("0/5"), Some(Rational::from_int(0)));
    assert_eq!(
        Rational::parse("-9223372036854775808"),
        Some(Rational::from_int(i64::MIN))
    );
}

#[test]
fn rational_parse_rejects_other_shapes() {
    assert_eq!(Rational::parse(""), None);
    assert_eq!(Rational::parse("-"), None);
    assert_eq!(Rational::parse("1.5"), None);
    assert_eq!(Rational::parse("two"), None);
    assert_eq!(Rational::parse("1/"), None);
    assert_eq!(Rational::parse("/2"), None);
    assert_eq!(Rational::parse("1/2/3"), None);
    assert_eq!(Rational::parse("1/0"), None);
    assert_eq!(Rational::parse("9223372036854775808"), None);
    assert_eq!(Rational::parse(" 1"), None);
}

#[test]
fn rational_from_str_matches_parse() {
    let half: Rational = "1/2".parse().unwrap();
    assert_eq!(half, Rational::new(1, 2).unwrap());
    assert!("1/0".parse::<Rational>().is_err());
}

#[test]
fn render_then_parse_returns_the_value() {
    let values = vec![
        Rational::from_int(0),
        Rational::from_int(-17),
        Rational::new(22, 7).unwrap(),
        Rational::new(-5, 8).unwrap(),
    ];
    for v in values {
        assert_eq!(Rational::parse(&v.to_text()), Some(v));
    }
}

#[test]
fn command_checks_report_range_and_overflow() {
    let m = Matrix::new(2, 2, vec![i64::MAX, 0, 1, 1]).unwrap();
    let scale_big = Command::ScaleRow { coeff: 2, row: 1 };
    assert!(scale_big.in_bounds_for(&m));
    assert!(!scale_big.ops_ok_for(&m));
    let scale_fine = Command::ScaleRow { coeff: 2, row: 2 };
    assert!(scale_fine.ops_ok_for(&m));
    let out = Command::ScaleRow { coeff: 2, row: 3 };
    assert!(!out.in_bounds_for(&m));

    let half = Rational::new(1, 2).unwrap();
    let q = Matrix::new(1, 1, vec![Rational::from_int(i64::MAX)]).unwrap();
    let shrink = Command::ScaleRow { coeff: half, row: 1 };
    assert!(shrink.ops_ok_for(&q));
    let grow = Command::ScaleRow { coeff: Rational::from_int(2), row: 1 };
    assert!(!grow.ops_ok_for(&q));
}
