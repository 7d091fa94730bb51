use rref::rational::{ParseErrorKind, ParseRationalError, Rational, RationalError, Sign};

fn q(sign: Sign, n: usize, d: usize) -> Rational {
    Rational::new(sign, n, d).unwrap()
}

fn parts(r: &Rational) -> (Sign, usize, usize) {
    (r.sign(), r.numerator(), r.denominator())
}

#[test]
fn new_reduces_to_lowest_terms() {
    let r = q(Sign::Negative, 6, 8);
    assert_eq!(parts(&r), (Sign::Negative, 3, 4));
    assert_eq!(parts(&q(Sign::Positive, 12, 4)), (Sign::Positive, 3, 1));
}

#[test]
fn new_rejects_zero_denominator() {
    assert_eq!(Rational::new(Sign::Positive, 1, 0), Err(RationalError::DivisionByZero));
}

#[test]
fn zero_is_canonical_whatever_its_sign_and_denominator() {
    let r = q(Sign::Negative, 0, 5);
    assert_eq!(parts(&r), (Sign::Positive, 0, 1));
    assert_eq!(r, Rational::zero());
    assert_eq!(Rational::default(), Rational::zero());
}

#[test]
fn multiplicative_inverse_swaps_and_keeps_sign() {
    let r = Rational::multiplicative_inverse(&q(Sign::Negative, 2, 3)).unwrap();
    assert_eq!(parts(&r), (Sign::Negative, 3, 2));
}

#[test]
fn zero_has_no_inverse() {
    assert_eq!(
        Rational::multiplicative_inverse(&Rational::zero()),
        Err(RationalError::NoInverse)
    );
}

#[test]
fn additive_inverse_flips_sign_but_not_of_zero() {
    let r = Rational::additive_inverse(&q(Sign::Positive, 1, 2));
    assert_eq!(parts(&r), (Sign::Negative, 1, 2));
    assert_eq!(Rational::additive_inverse(&Rational::zero()), Rational::zero());
}

#[test]
fn add_like_signs() {
    let mut a = q(Sign::Positive, 1, 2);
    a.add_inplace(q(Sign::Positive, 1, 3)).unwrap();
    assert_eq!(parts(&a), (Sign::Positive, 5, 6));
}

#[test]
fn add_unlike_signs_takes_sign_of_larger() {
    let mut a = q(Sign::Positive, 1, 2);
    a.add_inplace(q(Sign::Negative, 3, 4)).unwrap();
    assert_eq!(parts(&a), (Sign::Negative, 1, 4));
    let mut b = q(Sign::Negative, 1, 2);
    b.add_inplace(q(Sign::Positive, 3, 4)).unwrap();
    assert_eq!(parts(&b), (Sign::Positive, 1, 4));
    let mut c = q(Sign::Positive, 3, 4);
    c.add_inplace(q(Sign::Negative, 1, 4)).unwrap();
    assert_eq!(parts(&c), (Sign::Positive, 1, 2));
}

#[test]
fn mul_sign_rule_and_reduction() {
    let mut a = q(Sign::Positive, 2, 3);
    a.mul_inplace(&q(Sign::Negative, 3, 4)).unwrap();
    assert_eq!(parts(&a), (Sign::Negative, 1, 2));
    let mut b = q(Sign::Negative, 2, 3);
    b.mul_inplace(&q(Sign::Negative, 3, 2)).unwrap();
    assert_eq!(parts(&b), (Sign::Positive, 1, 1));
    let mut c = q(Sign::Negative, 2, 3);
    c.mul_inplace(&Rational::zero()).unwrap();
    assert_eq!(c, Rational::zero());
}

#[test]
fn mul_overflow_is_reported_and_leaves_value() {
    let mut a = q(Sign::Positive, usize::MAX, 1);
    let before = a;
    assert_eq!(a.mul_inplace(&q(Sign::Positive, 2, 1)), Err(RationalError::ArithmeticOverflow));
    assert_eq!(a, before);
}

#[test]
fn add_overflow_is_reported_and_leaves_value() {
    let mut a = q(Sign::Positive, usize::MAX, 1);
    let before = a;
    assert_eq!(a.add_inplace(q(Sign::Positive, 1, 1)), Err(RationalError::ArithmeticOverflow));
    assert_eq!(a, before);
    let mut b = q(Sign::Positive, 1, usize::MAX);
    assert_eq!(b.add_inplace(q(Sign::Positive, 1, 2)), Err(RationalError::ArithmeticOverflow));
}

#[test]
fn value_times_inverse_is_one() {
    for (s, n, d) in [(Sign::Positive, 3, 7), (Sign::Negative, 5, 2), (Sign::Positive, 1, 1)] {
        let r = q(s, n, d);
        let mut p = r;
        p.mul_inplace(&Rational::multiplicative_inverse(&r).unwrap()).unwrap();
        assert_eq!(parts(&p), (Sign::Positive, 1, 1));
    }
}

#[test]
fn value_plus_negation_is_zero() {
    for r in [q(Sign::Positive, 3, 7), q(Sign::Negative, 5, 2), Rational::zero()] {
        let mut s = r;
        s.add_inplace(Rational::additive_inverse(&r)).unwrap();
        assert_eq!(s, Rational::zero());
    }
}

#[test]
fn from_integer() {
    assert_eq!(parts(&Rational::from(-7isize)), (Sign::Negative, 7, 1));
    assert_eq!(parts(&Rational::from(0isize)), (Sign::Positive, 0, 1));
    assert_eq!(parts(&Rational::from_int(isize::MIN)), (Sign::Negative, 1usize << 63, 1));
}

#[test]
fn parse_accepts_grammar() {
    assert_eq!(parts(&Rational::parse("3/4").unwrap()), (Sign::Positive, 3, 4));
    assert_eq!(parts(&Rational::parse("-6/8").unwrap()), (Sign::Negative, 3, 4));
    assert_eq!(parts(&Rational::parse("7").unwrap()), (Sign::Positive, 7, 1));
    assert_eq!(parts(&Rational::parse("-0").unwrap()), (Sign::Positive, 0, 1));
    let r: Rational = "10/4".parse().unwrap();
    assert_eq!(parts(&r), (Sign::Positive, 5, 2));
}

#[test]
fn parse_rejects_malformed_text() {
    for t in ["", "-", "1/", "/2", "1a", "1/2/3", "+1", " 1", "1 ", "--1", "1/-2"] {
        assert_eq!(
            Rational::parse(t),
            Err(ParseRationalError { kind: ParseErrorKind::Malformed }),
            "token {:?}",
            t
        );
    }
}

#[test]
fn parse_zero_denominator_is_division_by_zero() {
    for t in ["1/0", "-3/000", "0/0"] {
        assert_eq!(Rational::parse(t).unwrap_err().kind, ParseErrorKind::DivisionByZero);
    }
}

#[test]
fn parse_rejects_overflow() {
    let overflow = Err(ParseRationalError { kind: ParseErrorKind::ArithmeticOverflow });
    assert_eq!(Rational::parse("184467440737095516160"), overflow);
    assert_eq!(Rational::parse("1/184467440737095516160"), overflow);
    assert_eq!(Rational::parse("184467440737095516160/0"), overflow);
    let max = usize::MAX.to_string();
    assert_eq!(Rational::parse(&max).unwrap().numerator(), usize::MAX);
}

#[test]
fn to_string_forms() {
    assert_eq!(q(Sign::Negative, 3, 4).to_string(), "-3/4");
    assert_eq!(q(Sign::Positive, 5, 1).to_string(), "5");
    assert_eq!(Rational::zero().to_string(), "0");
    assert_eq!(q(Sign::Positive, 120, 7).to_string(), "120/7");
}

#[test]
fn parse_then_print_round_trip() {
    for (t, printed) in [("007/014", "1/2"), ("-12", "-12"), ("5/1", "5"), ("-0/3", "0"), ("9/6", "3/2")] {
        let r = Rational::parse(t).unwrap();
        let s = r.to_string();
        assert_eq!(s, printed);
        assert_eq!(Rational::parse(&s).unwrap(), r);
    }
}
