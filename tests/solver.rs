use computor::parsing::{parsing, Side, Term};
use computor::solver::{degree, solution_kind, Outcome, Signs};

fn signs(a: f64, b: f64, c: f64) -> Signs {
    let d = b * b - 4.0 * a * c;
    Signs {
        a_is_zero: a == 0.0,
        b_is_zero: b == 0.0,
        c_is_zero: c == 0.0,
        d_is_positive: d > 0.0,
        d_is_zero: d == 0.0,
    }
}

fn slot(terms: &[Term]) -> f64 {
    terms.iter().fold(0.0, |acc, t| {
        acc + t.factors.iter().fold(1.0, |p, f| p * std::str::from_utf8(f).unwrap().parse::<f64>().unwrap())
    })
}

fn coefficients(side: &Side) -> (f64, f64, f64) {
    (slot(&side.a), slot(&side.b), slot(&side.c))
}

/// Reads, reduces and solves, returning the outcome and the real roots.
fn solve_text(text: &str) -> (Outcome, Vec<f64>) {
    let eq = parsing(text).unwrap();
    let (la, lb, lc) = coefficients(&eq.left);
    let (ra, rb, rc) = coefficients(&eq.right);
    roots_of(la - ra, lb - rb, lc - rc)
}

/// The outcome and real roots of a reduced form.
fn roots_of(a: f64, b: f64, c: f64) -> (Outcome, Vec<f64>) {
    let outcome = solution_kind(signs(a, b, c));
    let d = b * b - 4.0 * a * c;
    let roots = match outcome {
        Outcome::Linear => vec![-c / b],
        Outcome::TwoRoots => vec![(-b + d.sqrt()) / (2.0 * a), (-b - d.sqrt()) / (2.0 * a)],
        Outcome::DoubleRoot => vec![-b / (2.0 * a)],
        _ => vec![],
    };
    (outcome, roots)
}

#[test]
fn test_degree_2() {
    assert_eq!(degree(false, true), 2);
    assert_eq!(degree(false, false), 2);
}

#[test]
fn test_degree_1() {
    assert_eq!(degree(true, false), 1);
}

#[test]
fn test_degree_0() {
    assert_eq!(degree(true, true), 0);
}

#[test]
fn test_solve_2e_positive_discriminant() {
    let (o, solutions) = roots_of(1.0, -3.0, 2.0);
    assert_eq!(o, Outcome::TwoRoots);
    assert_eq!(solutions.len(), 2);
    assert!((solutions[0] - 2.0).abs() < f64::EPSILON);
    assert!((solutions[1] - 1.0).abs() < f64::EPSILON);
}

#[test]
fn test_solve_2e_zero_discriminant() {
    let (o, solutions) = roots_of(1.0, -2.0, 1.0);
    assert_eq!(o, Outcome::DoubleRoot);
    assert_eq!(solutions.len(), 1);
    assert!((solutions[0] - 1.0).abs() < f64::EPSILON);
}

#[test]
fn test_solve_2e_negative_discriminant() {
    assert_eq!(roots_of(1.0, 2.0, 3.0), (Outcome::ComplexPair, vec![]));
}

#[test]
fn test_solve_1e() {
    let (o, solutions) = roots_of(0.0, 2.0, -4.0);
    assert_eq!(o, Outcome::Linear);
    assert_eq!(solutions.len(), 1);
    assert!((solutions[0] - 2.0).abs() < f64::EPSILON);
}

#[test]
fn test_solve_0e_no_solution() {
    assert_eq!(roots_of(0.0, 0.0, 1.0), (Outcome::NoSolution, vec![]));
}

#[test]
fn test_compute_invalid_input() {
    assert!(parsing("This is not a valid equation").is_err());
}

#[test]
fn test_compute_higher_degree() {
    assert!(parsing("1 * X^3 - 3 * X^2 + 3 * X^1 - 1 * X^0 = 0 * X^0").is_err());
}

#[test]
fn kind_all_reals() {
    assert_eq!(solution_kind(signs(0.0, 0.0, 0.0)), Outcome::AllReals);
}

#[test]
fn kind_no_solution() {
    assert_eq!(solution_kind(signs(0.0, 0.0, -1.0)), Outcome::NoSolution);
}

#[test]
fn kind_linear() {
    assert_eq!(solution_kind(signs(0.0, 2.0, -4.0)), Outcome::Linear);
}

#[test]
fn kind_positive_discriminant() {
    assert_eq!(solution_kind(signs(1.0, -3.0, 2.0)), Outcome::TwoRoots);
}

#[test]
fn kind_zero_discriminant() {
    assert_eq!(solution_kind(signs(1.0, -2.0, 1.0)), Outcome::DoubleRoot);
}

#[test]
fn kind_negative_discriminant() {
    assert_eq!(solution_kind(signs(1.0, 2.0, 3.0)), Outcome::ComplexPair);
}

#[test]
fn test_compute_quadratic_positive_discriminant() {
    let (o, roots) = solve_text("1 * X^2 + 0 * X^1 - 1 * X^0 = 0 * X^0");
    assert_eq!(o, Outcome::TwoRoots);
    assert_eq!(roots.len(), 2);
    assert!(roots.contains(&1.0));
    assert!(roots.contains(&-1.0));
}

#[test]
fn test_compute_quadratic_positive_discriminant2() {
    let (o, roots) = solve_text("1*X^2 + 5*X + 6 = 0");
    assert_eq!(o, Outcome::TwoRoots);
    assert!(roots.contains(&-2.0));
    assert!(roots.contains(&-3.0));
    for x in roots {
        assert!((x * x + 5.0 * x + 6.0).abs() < 1e-9);
    }
}

#[test]
fn test_compute_quadratic_zero_discriminant() {
    assert_eq!(solve_text("1 * X^2 - 2 * X^1 + 1 * X^0 = 0 * X^0"), (Outcome::DoubleRoot, vec![1.0]));
}

#[test]
fn test_compute_linear_solution() {
    assert_eq!(solve_text("1 * X^1 = 0 * X^0"), (Outcome::Linear, vec![0.0]));
}

#[test]
fn test_compute_all_real_numbers() {
    assert_eq!(solve_text("0 * X^0 = 0 * X^0"), (Outcome::AllReals, vec![]));
}

#[test]
fn scenario_all_reals_any_order() {
    assert_eq!(solve_text("X^2 + 2*X - 1 = -1 + 2*X + 1*X^2"), (Outcome::AllReals, vec![]));
}

#[test]
fn test_compute_no_solution() {
    assert_eq!(solve_text("0 * X^0 = 1 * X^0"), (Outcome::NoSolution, vec![]));
}

#[test]
fn test_compute_quadratic_negative_discriminant() {
    assert_eq!(solve_text("1 * X^2 + 2 * X^1 + 5 * X^0 = 0 * X^0"), (Outcome::ComplexPair, vec![]));
}
