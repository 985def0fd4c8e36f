use computor::equation::{decompose, equation_coefficients, parse, Coefficients, ParseError};
use computor::number::{magnitude_chars, parse_literal, NumberError};
use computor::solve::{degree, reduced, solve, Solution};
use computor::text::{chars_of, string_of};

const ONE: i64 = 1_000_000_000;

fn k(a: i64, b: i64, c: i64) -> Coefficients {
    Coefficients { a: a * ONE, b: b * ONE, c: c * ONE }
}

fn strings(v: &[&str]) -> Vec<String> {
    v.iter().map(|s| s.to_string()).collect()
}

#[test]
fn parse_splits_sides_and_terms() {
    let (l, r) = parse("5 * X^0 - 2 * X^1 = 3").unwrap();
    assert_eq!(l, strings(&["5*X^0", "-2*X^1"]));
    assert_eq!(r, strings(&["3"]));
}

#[test]
fn parse_keeps_empty_fragment_of_leading_minus() {
    let (l, r) = parse("-X^2 = 0").unwrap();
    assert_eq!(l, strings(&["", "-X^2"]));
    assert_eq!(r, strings(&["0"]));
}

#[test]
fn parse_strips_tabs_and_newlines() {
    let (l, _) = parse("4\t*\nX^1=0").unwrap();
    assert_eq!(l, strings(&["4*X^1"]));
}

#[test]
fn parse_rejects_missing_equals() {
    assert!(matches!(parse("5 * X^0"), Err(ParseError::MalformedEquation)));
}

#[test]
fn parse_rejects_two_equals() {
    assert!(matches!(parse("X^2 = 0 = 1"), Err(ParseError::MalformedEquation)));
}

#[test]
fn bare_constant_is_unsupported_expression() {
    match equation_coefficients("5 = 3 * X^0") {
        Err(ParseError::UnsupportedExpression(f)) => assert_eq!(f, "5"),
        other => panic!("unexpected {:?}", other),
    }
}

#[test]
fn empty_fragment_is_rejected() {
    match equation_coefficients("-X^2 = 0") {
        Err(ParseError::UnsupportedExpression(f)) => assert_eq!(f, ""),
        other => panic!("unexpected {:?}", other),
    }
}

#[test]
fn bad_number_is_invalid() {
    match equation_coefficients("a * X^1 = 0") {
        Err(ParseError::InvalidNumber(f)) => assert_eq!(f, "a*X^1"),
        other => panic!("unexpected {:?}", other),
    }
}

#[test]
fn too_many_fraction_digits_is_out_of_range() {
    match equation_coefficients("1.0000000001 * X^0 = 0") {
        Err(ParseError::NumberOutOfRange(f)) => assert_eq!(f, "1.0000000001*X^0"),
        other => panic!("unexpected {:?}", other),
    }
}

#[test]
fn overflowing_sum_is_out_of_range() {
    assert!(matches!(
        equation_coefficients("9000000000 * X^1 + 9000000000 * X^1 = 0"),
        Err(ParseError::SumOutOfRange)
    ));
}

#[test]
fn large_running_sum_with_fitting_result() {
    let p = "9000000000*X^2";
    let v = decompose(strings(&[p, p]), strings(&[p])).unwrap();
    assert_eq!(v, Coefficients { a: 9_000_000_000 * ONE, b: 0, c: 0 });
}

#[test]
fn large_terms_in_any_order() {
    let p = "9000000000*X^2";
    let n = "-9000000000*X^2";
    let first = decompose(strings(&[p, n, p]), strings(&["0"])).unwrap();
    let second = decompose(strings(&[p, p, n]), strings(&["0"])).unwrap();
    assert_eq!(first, second);
    assert_eq!(first.a, 9_000_000_000 * ONE);
}

#[test]
fn swapped_sides_negate_vector() {
    let p = "9000000000*X^2";
    let v = decompose(strings(&[p]), strings(&[p, p])).unwrap();
    let w = decompose(strings(&[p, p]), strings(&[p])).unwrap();
    assert_eq!(v.a, -9_000_000_000 * ONE);
    assert_eq!(w, Coefficients { a: -v.a, b: -v.b, c: -v.c });
}

#[test]
fn left_failure_reported_before_right() {
    match decompose(strings(&["5"]), strings(&["x*X^1"])) {
        Err(ParseError::UnsupportedExpression(f)) => assert_eq!(f, "5"),
        other => panic!("unexpected {:?}", other),
    }
}

#[test]
fn unit_and_minus_unit_coefficients() {
    assert_eq!(equation_coefficients("X^2 - X^1 = 0").unwrap(), k(1, -1, 0));
}

#[test]
fn zero_fragment_contributes_nothing() {
    assert_eq!(equation_coefficients("0 = 0").unwrap(), k(0, 0, 0));
}

#[test]
fn right_side_is_subtracted() {
    let v = decompose(strings(&["2*X^2"]), strings(&["3*X^2", "-1*X^0"])).unwrap();
    assert_eq!(v, k(-1, 0, 1));
}

#[test]
fn permuted_fragments_give_same_vector() {
    let a = equation_coefficients("1 * X^2 + 2 * X^1 - 3 * X^0 = 4 * X^1 + 5 * X^0").unwrap();
    let b = equation_coefficients("- 3 * X^0 + 1 * X^2 + 2 * X^1 = 5 * X^0 + 4 * X^1");
    // the second text starts with a sign, which leaves an empty fragment
    assert!(b.is_err());
    let c = equation_coefficients("2 * X^1 - 3 * X^0 + 1 * X^2 = 5 * X^0 + 4 * X^1").unwrap();
    assert_eq!(a, c);
    assert_eq!(a, k(1, -2, -8));
}

#[test]
fn cancelled_square_term_has_degree_zero() {
    let v = equation_coefficients("3 * X^2 = 3 * X^2").unwrap();
    assert_eq!(degree(v), 0);
}

#[test]
fn degree_follows_highest_nonzero() {
    assert_eq!(degree(k(1, 0, 0)), 2);
    assert_eq!(degree(k(0, -2, 5)), 1);
    assert_eq!(degree(k(0, 0, 5)), 0);
}

#[test]
fn reduced_form_of_units() {
    assert_eq!(reduced(&k(-1, 1, -1)), "- X^2 + X - = 0");
    assert_eq!(reduced(&k(1, 0, 0)), "X^2 = 0");
}

#[test]
fn reduced_form_of_fractions() {
    let v = Coefficients { a: 0, b: -1_250_000_000, c: 3 };
    assert_eq!(reduced(&v), "- 1.25 * X + 0.000000003 = 0");
}

#[test]
fn constant_equations() {
    assert_eq!(solve(0, 0, 0, 0), Solution::AnyReal);
    assert_eq!(solve(0, 0, 7, 0), Solution::NoSolution);
}

#[test]
fn linear_root_substitutes_to_zero() {
    let v = k(0, 4, 1);
    match solve(v.a, v.b, v.c, 1) {
        Solution::Linear { num, den } => {
            assert_eq!((num, den), (-(ONE as i128), 4 * ONE as i128));
            assert_eq!(v.b as i128 * num + v.c as i128 * den, 0);
        }
        other => panic!("unexpected {:?}", other),
    }
}

#[test]
fn quadratic_branches_follow_discriminant() {
    assert_eq!(solve(ONE, 0, -ONE, 2), Solution::TwoReal { a: ONE, b: 0, c: -ONE });
    assert_eq!(
        solve(ONE, 2 * ONE, ONE, 2),
        Solution::OneReal { num: -2 * ONE as i128, den: 2 * ONE as i128 }
    );
    assert_eq!(solve(ONE, 0, ONE, 2), Solution::ComplexPair { a: ONE, b: 0, c: ONE });
}

#[test]
fn discriminant_sign_at_extremes() {
    let m = i64::MAX;
    assert_eq!(solve(m, m, m, 2), Solution::ComplexPair { a: m, b: m, c: m });
    assert_eq!(solve(-m, m, m, 2), Solution::TwoReal { a: -m, b: m, c: m });
}

#[test]
fn double_root_solves_equation() {
    // x^2 - 6x + 9 = 0 has the double root 3
    let v = equation_coefficients("X^2 - 6 * X^1 + 9 * X^0 = 0").unwrap();
    match solve(v.a, v.b, v.c, degree(v)) {
        Solution::OneReal { num, den } => assert_eq!(num / den, 3),
        other => panic!("unexpected {:?}", other),
    }
}

#[test]
fn literal_values() {
    assert_eq!(parse_literal(&"9.3".chars().collect()), Ok(9_300_000_000));
    assert_eq!(parse_literal(&"-0.5".chars().collect()), Ok(-500_000_000));
    assert_eq!(parse_literal(&".5".chars().collect()), Ok(500_000_000));
    assert_eq!(parse_literal(&"7.".chars().collect()), Ok(7_000_000_000));
    assert_eq!(parse_literal(&"1.2.3".chars().collect()), Err(NumberError::Invalid));
    assert_eq!(parse_literal(&"-".chars().collect()), Err(NumberError::Invalid));
    assert_eq!(parse_literal(&"".chars().collect()), Err(NumberError::Invalid));
    assert_eq!(parse_literal(&"1e3".chars().collect()), Ok(1000 * ONE));
    assert_eq!(parse_literal(&"2.5E-1".chars().collect()), Ok(250_000_000));
    assert_eq!(parse_literal(&"-1.5e2".chars().collect()), Ok(-150 * ONE));
    assert_eq!(parse_literal(&"0e999999999999999999999".chars().collect()), Ok(0));
    assert_eq!(parse_literal(&"1e".chars().collect()), Err(NumberError::Invalid));
    assert_eq!(parse_literal(&"e3".chars().collect()), Err(NumberError::Invalid));
    assert_eq!(parse_literal(&"1e3e1".chars().collect()), Err(NumberError::Invalid));
    assert_eq!(parse_literal(&"1e-10".chars().collect()), Err(NumberError::OutOfRange));
    assert_eq!(parse_literal(&"1e10".chars().collect()), Err(NumberError::OutOfRange));
    assert_eq!(parse_literal(&"1e99999999999999999999".chars().collect()), Err(NumberError::OutOfRange));
    assert_eq!(
        parse_literal(&"9223372037".chars().collect()),
        Err(NumberError::OutOfRange)
    );
}

#[test]
fn exponent_coefficient_in_equation() {
    assert_eq!(equation_coefficients("1e3 * X^1 = 0").unwrap(), k(0, 1000, 0));
}

#[test]
fn magnitude_text_trims_zeros() {
    let s: String = magnitude_chars(9_300_000_000).into_iter().collect();
    assert_eq!(s, "9.3");
    let s: String = magnitude_chars(40_000_000_000).into_iter().collect();
    assert_eq!(s, "40");
    let s: String = magnitude_chars(1).into_iter().collect();
    assert_eq!(s, "0.000000001");
}

#[test]
fn text_conversions_keep_characters() {
    let cs = chars_of("a-b é");
    assert_eq!(cs, vec!['a', '-', 'b', ' ', 'é']);
    assert_eq!(string_of(&cs), "a-b é");
}

#[test]
fn rendered_square_term_reads_back() {
    let v = Coefficients { a: 9_300_000_000, b: 0, c: 0 };
    let text = reduced(&v);
    assert_eq!(text, "9.3 * X^2 = 0");
    assert_eq!(equation_coefficients(&text).unwrap(), v);
}

#[test]
fn extreme_coefficients_render_and_solve() {
    let v = Coefficients { a: i64::MIN, b: 0, c: 0 };
    assert_eq!(reduced(&v), "- 9223372036.854775808 * X^2 = 0");
    assert_eq!(
        solve(i64::MIN, i64::MIN, i64::MIN, 2),
        Solution::ComplexPair { a: i64::MIN, b: i64::MIN, c: i64::MIN }
    );
    assert_eq!(
        solve(0, i64::MIN, i64::MIN, 1),
        Solution::Linear { num: 1i128 << 63, den: i64::MIN as i128 }
    );
}

#[test]
fn fragments_join_back_to_cleaned_text() {
    let (l, r) = parse("5 * X^0 - 2 * X^1 = 3").unwrap();
    assert_eq!(format!("{}={}", l.join("+"), r.join("+")), "5*X^0+-2*X^1=3");
}
