use computor::equation::{equation_coefficients, Coefficients, ParseError};
use computor::solve::{degree, reduced, solve, Solution};

fn units(v: i64) -> f64 {
    v as f64 / 1e9
}

fn report(input: &str) -> (String, u8, Solution) {
    let k = equation_coefficients(input).expect("equation should parse");
    let d = degree(k);
    (reduced(&k), d, solve(k.a, k.b, k.c, d))
}

#[test]
fn test_case_1() {
    let (form, d, s) = report("5 * X^0 + 4 * X^1 - 9.3 * X^2 = 1 * X^0");
    assert_eq!(form, "- 9.3 * X^2 + 4 * X + 4 = 0");
    assert_eq!(d, 2);
    match s {
        Solution::TwoReal { a, b, c } => {
            let (a, b, c) = (units(a), units(b), units(c));
            let delta = b.powf(2.) - 4. * a * c;
            let x1 = (-b - delta.sqrt()) / (2. * a);
            let x2 = (-b + delta.sqrt()) / (2. * a);
            assert_eq!(format!("{}\n{}", x1, x2), "0.9052389907905898\n-0.47513146390886934");
        }
        other => panic!("unexpected solution {:?}", other),
    }
}

#[test]
fn test_case_2() {
    let (form, d, s) = report("5 * X^0 + 4 * X^1 = 4 * X^0");
    assert_eq!(form, "4 * X + = 0");
    assert_eq!(d, 1);
    match s {
        Solution::Linear { num, den } => {
            assert_eq!(format!("{}", num as f64 / den as f64), "-0.25");
        }
        other => panic!("unexpected solution {:?}", other),
    }
}

#[test]
fn test_case_3() {
    match equation_coefficients("8 * X^0 - 6 * X^1 + 0 * X^2 - 5.6 * X^3 = 3 * X^0") {
        Err(ParseError::UnsupportedTerm(f)) => assert_eq!(f, "-5.6*X^3"),
        other => panic!("unexpected result {:?}", other),
    }
}

#[test]
fn test_case_4() {
    let (form, d, s) = report("6 * X^0 = 6 * X^0");
    assert_eq!(form, "0 = 0");
    assert_eq!(d, 0);
    assert_eq!(s, Solution::AnyReal);
}

#[test]
fn test_case_5() {
    let (form, d, s) = report("10 * X^0 = 15 * X^0");
    assert_eq!(form, "- 5 = 0");
    assert_eq!(d, 0);
    assert_eq!(s, Solution::NoSolution);
}

#[test]
fn test_case_6() {
    let (form, d, s) = report("1 * X^0 + 2 * X^1 + 5 * X^2 = 0");
    assert_eq!(form, "5 * X^2 + 2 * X + = 0");
    assert_eq!(d, 2);
    match s {
        Solution::ComplexPair { a, b, c } => {
            let (a, b, c) = (units(a), units(b), units(c));
            let delta = b.powf(2.) - 4. * a * c;
            let real = -b / (2. * a);
            let imaginary = (-delta).sqrt() / (2. * a);
            assert_eq!(
                format!("{} + {}i\n{} - {}i", real, imaginary, real, imaginary),
                "-0.2 + 0.4i\n-0.2 - 0.4i"
            );
        }
        other => panic!("unexpected solution {:?}", other),
    }
}

#[test]
fn coefficients_of_scenario_one() {
    let k = equation_coefficients("5 * X^0 + 4 * X^1 - 9.3 * X^2 = 1 * X^0").unwrap();
    assert_eq!(
        k,
        Coefficients { a: -9_300_000_000, b: 4_000_000_000, c: 4_000_000_000 }
    );
}
