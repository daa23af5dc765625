use computor::number::is_number;
use computor::parsing::{
    add_coefficients, check_value_vec, parse_coefficient, parse_term, parse_values,
    parse_x_part, parsing, parsing_polynomial, split_bytes, ParseError, Term,
};

fn texts(v: &[&str]) -> Vec<Vec<u8>> {
    v.iter().map(|s| s.as_bytes().to_vec()).collect()
}

fn term(power: u8, factors: &[&str]) -> Term {
    Term { power, factors: texts(factors) }
}

#[test]
fn values_split_on_signs() {
    let r = parse_values(b"5*X^2+3*X-2").unwrap();
    assert_eq!(r, texts(&["5*X^2", "+3*X", "-2"]));
}

#[test]
fn values_leading_sign_stays_with_term() {
    let r = parse_values(b"-1*X+2").unwrap();
    assert_eq!(r, texts(&["-1*X", "+2"]));
}

#[test]
fn values_empty_side() {
    assert_eq!(parse_values(b""), Err(ParseError::EmptyValue));
}

#[test]
fn values_trailing_sign() {
    assert_eq!(parse_values(b"1+"), Err(ParseError::InvalidValue(b"+".to_vec())));
}

#[test]
fn values_two_signs_in_a_row() {
    assert_eq!(parse_values(b"1+-2"), Err(ParseError::InvalidValue(b"+".to_vec())));
}

#[test]
fn values_lone_sign() {
    assert_eq!(parse_values(b"-"), Err(ParseError::InvalidValue(b"-".to_vec())));
}

#[test]
fn check_value_vec_first_fault() {
    assert_eq!(check_value_vec(&texts(&["1", "", "-"])), Err(ParseError::EmptyValue));
    assert_eq!(check_value_vec(&texts(&["1", "-", ""])), Err(ParseError::InvalidValue(b"-".to_vec())));
    assert_eq!(check_value_vec(&texts(&["1", "-2"])), Ok(()));
}

#[test]
fn x_part_bare_marker() {
    assert_eq!(parse_x_part(&texts(&["X"])), Ok(1));
}

#[test]
fn x_part_exponent() {
    assert_eq!(parse_x_part(&texts(&["X^2"])), Ok(2));
    assert_eq!(parse_x_part(&texts(&["X^007"])), Ok(7));
}

#[test]
fn x_part_no_factor_is_power_zero() {
    assert_eq!(parse_x_part(&texts(&[])), Ok(0));
}

#[test]
fn x_part_powers_add_up() {
    assert_eq!(parse_x_part(&texts(&["X", "X^1"])), Ok(2));
}

#[test]
fn x_part_bad_grammar() {
    assert_eq!(parse_x_part(&texts(&["X2"])), Err(ParseError::InvalidPart(b"X2".to_vec())));
    assert_eq!(parse_x_part(&texts(&["2X"])), Err(ParseError::InvalidPart(b"2X".to_vec())));
}

#[test]
fn x_part_bad_exponent() {
    assert_eq!(parse_x_part(&texts(&["X^"])), Err(ParseError::InvalidPower(b"X^".to_vec())));
    assert_eq!(parse_x_part(&texts(&["X^2a"])), Err(ParseError::InvalidPower(b"X^2a".to_vec())));
    assert_eq!(parse_x_part(&texts(&["X^256"])), Err(ParseError::InvalidPower(b"X^256".to_vec())));
    assert_eq!(parse_x_part(&texts(&["X^255"])), Ok(255));
}

#[test]
fn x_part_sum_past_255() {
    assert_eq!(
        parse_x_part(&texts(&["X^200", "X^100"])),
        Err(ParseError::InvalidPower(b"X^100".to_vec()))
    );
}

#[test]
fn numbers_accepted() {
    for s in ["1", "-1.5", "+2", ".5", "5.", "1e3", "1E3", "2.5e10", "inf", "-Infinity", "NaN", "007"] {
        assert!(is_number(&s.as_bytes().to_vec()), "{}", s);
        assert!(s.parse::<f64>().is_ok(), "{}", s);
    }
}

#[test]
fn numbers_refused() {
    for s in ["", ".", "e3", "1e", "abc", "1.2.3", "+", "1x", "in", "--1", "1e+"] {
        assert!(!is_number(&s.as_bytes().to_vec()), "{}", s);
        assert!(s.parse::<f64>().is_err(), "{}", s);
    }
}

#[test]
fn split_on_star() {
    assert_eq!(split_bytes(&b"2*X^2*3".to_vec(), b'*'), texts(&["2", "X^2", "3"]));
    assert_eq!(split_bytes(&b"2**3".to_vec(), b'*'), texts(&["2", "", "3"]));
}

#[test]
fn term_numeric_and_variable_factors() {
    assert_eq!(parse_term(&b"2*X^2*3".to_vec()), Ok(term(2, &["2", "3"])));
}

#[test]
fn term_without_number_has_no_factor() {
    assert_eq!(parse_term(&b"X^2".to_vec()), Ok(term(2, &[])));
}

#[test]
fn term_without_variable_is_power_zero() {
    assert_eq!(parse_term(&b"-4.5".to_vec()), Ok(term(0, &["-4.5"])));
}

#[test]
fn term_bad_number_before_bad_power() {
    assert_eq!(parse_term(&b"abc*X^".to_vec()), Err(ParseError::InvalidValue(b"abc".to_vec())));
}

#[test]
fn term_signed_variable_is_refused() {
    assert_eq!(parse_term(&b"-X".to_vec()), Err(ParseError::InvalidPart(b"-X".to_vec())));
}

#[test]
fn term_two_variable_factors_sum() {
    assert_eq!(parse_term(&b"X*X".to_vec()), Ok(term(2, &[])));
}

#[test]
fn coefficient_each_term() {
    let r = parse_coefficient(&texts(&["1*X", "+2"])).unwrap();
    assert_eq!(r, vec![term(1, &["1"]), term(0, &["+2"])]);
    assert_eq!(parse_coefficient(&texts(&["1*X", "+y"])), Err(ParseError::InvalidValue(b"+y".to_vec())));
}

#[test]
fn aggregate_by_power() {
    let side = add_coefficients(&vec![term(0, &["1"]), term(2, &["3"]), term(0, &["-2"]), term(1, &[])]).unwrap();
    assert_eq!(side.a, vec![term(2, &["3"])]);
    assert_eq!(side.b, vec![term(1, &[])]);
    assert_eq!(side.c, vec![term(0, &["1"]), term(0, &["-2"])]);
}

#[test]
fn aggregate_refuses_power_three() {
    assert_eq!(
        add_coefficients(&vec![term(1, &["1"]), term(3, &["1"]), term(4, &["1"])]),
        Err(ParseError::UnsupportedPower(3))
    );
}

#[test]
fn polynomial_side() {
    let side = parsing_polynomial(b"1*X^2+5*X+6").unwrap();
    assert_eq!(side.a, vec![term(2, &["1"])]);
    assert_eq!(side.b, vec![term(1, &["+5"])]);
    assert_eq!(side.c, vec![term(0, &["+6"])]);
}

#[test]
fn equation_blanks_removed() {
    let eq = parsing(" 1 * X^1 \t= 0 * X^0 ").unwrap();
    assert_eq!(eq.left.b, vec![term(1, &["1"])]);
    assert!(eq.left.a.is_empty() && eq.left.c.is_empty());
    assert_eq!(eq.right.c, vec![term(0, &["0"])]);
}

#[test]
fn equation_needs_one_equals() {
    assert_eq!(parsing("1 * X^1"), Err(ParseError::InvalidEquation));
    assert_eq!(parsing("1 = 2 = 3"), Err(ParseError::InvalidEquation));
}

#[test]
fn equation_not_valid_text() {
    assert_eq!(parsing("This is not a valid equation"), Err(ParseError::InvalidEquation));
}

#[test]
fn equation_degree_three_refused() {
    assert_eq!(
        parsing("1 * X^3 - 3 * X^2 + 3 * X^1 - 1 * X^0 = 0 * X^0"),
        Err(ParseError::UnsupportedPower(3))
    );
}

#[test]
fn equation_degree_three_on_right_refused() {
    assert_eq!(parsing("0 = X^3"), Err(ParseError::UnsupportedPower(3)));
}

#[test]
fn equation_empty_side() {
    assert_eq!(parsing("= 1"), Err(ParseError::EmptyValue));
}

#[test]
fn equation_left_error_first() {
    assert_eq!(parsing("X^9 = abc"), Err(ParseError::UnsupportedPower(9)));
}

#[test]
fn values_join_back_to_side() {
    let side = b"-3*X^2+4.5-X^1*2";
    let r = parse_values(side).unwrap();
    assert_eq!(r.concat(), side.to_vec());
    assert!(r[1..].iter().all(|t| t[0] == b'+' || t[0] == b'-'));
}
