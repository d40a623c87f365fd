use matrixops::element::Element;
use matrixops::rational::Rational;
use matrixops::ui::number_dialog::NumberDialog;

#[test]
fn rational_new_reduces() {
    let half = Rational::new(1, 2).unwrap();
    assert_eq!(Rational::new(2, 4).unwrap(), half);
    assert_eq!(Rational::new(-3, -6).unwrap(), half);
    let minus_half = Rational::new(-1, 2).unwrap();
    assert_eq!(Rational::new(3, -6).unwrap(), minus_half);
    assert_eq!(Rational::new(0, 7).unwrap(), Rational::from_int(0));
    assert_eq!(Rational::new(5, 0), None);
}

#[test]
fn rational_new_rejects_unrepresentable() {
    assert_eq!(Rational::new(i64::MIN, -1), None);
    assert_eq!(
        Rational::new(i64::MIN, 2).unwrap(),
        Rational::new(i64::MIN / 2, 1).unwrap()
    );
}

#[test]
fn rational_arithmetic_is_exact() {
    let half = Rational::new(1, 2).unwrap();
    let third = Rational::new(1, 3).unwrap();
    assert_eq!(half.add(third), Rational::new(5, 6).unwrap());
    assert_eq!(half.mul(third), Rational::new(1, 6).unwrap());
    assert_eq!(half.sub(third), Rational::new(1, 6).unwrap());
    assert_eq!(third.sub(half), Rational::new(-1, 6).unwrap());
    // a tenth of a tenth, exactly: no binary rounding
    let tenth = Rational::new(1, 10).unwrap();
    assert_eq!(tenth.mul(tenth), Rational::new(1, 100).unwrap());
    // results come out in lowest terms
    assert_eq!(half.add(half), Rational::from_int(1));
}

#[test]
fn rational_identities() {
    let x = Rational::new(-7, 3).unwrap();
    assert_eq!(Rational::one().mul(x), x);
    assert_eq!(Rational::zero().mul(x), Rational::zero());
    assert_eq!(Rational::zero().add(x), x);
    assert_eq!(Rational::from_int(1), Rational::one());
    assert_eq!(Rational::from_int(0), Rational::zero());
}

#[test]
fn number_dialog_holds_its_parts() {
    let d: NumberDialog<i64, _> = NumberDialog::new(
        String::from("Which row?"),
        |n: i64| n + 1,
    );
    assert_eq!(d.message, "Which row?");
    assert_eq!((d.callback)(4), 5);
}
