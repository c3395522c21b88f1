use vverdad::units::error::UnitError;
use vverdad::units::error::Dimensions;
use vverdad::units::parse::{
    group_unit_terms, parse_compound_unit, parse_i8, parse_unit_term, split_value_and_unit, tokenize_unit,
};
use vverdad::units::unit::{
    build_compound_symbol, build_power_symbol, divide_dimensions, is_dimensionless, multiply_dimensions,
    raise_dimensions, same_si_dimensions, si_symbol,
};

#[test]
fn test_si_symbol_known_units() {
    assert_eq!(si_symbol(&[1, 0, 0, 0, 0, 0, 0, 0]), "m");
    assert_eq!(si_symbol(&[0, 1, 0, 0, 0, 0, 0, 0]), "kg");
    assert_eq!(si_symbol(&[0, 0, 1, 0, 0, 0, 0, 0]), "s");
    assert_eq!(si_symbol(&[1, 1, -2, 0, 0, 0, 0, 0]), "N");
    assert_eq!(si_symbol(&[2, 1, -2, 0, 0, 0, 0, 0]), "J");
    assert_eq!(si_symbol(&[2, 1, -3, 0, 0, 0, 0, 0]), "W");
    assert_eq!(si_symbol(&[-1, 1, -2, 0, 0, 0, 0, 0]), "Pa");
    assert_eq!(si_symbol(&[0, 0, -1, 0, 0, 0, 0, 0]), "Hz");
}

#[test]
fn test_si_symbol_velocity() {
    let sym = si_symbol(&[1, 0, -1, 0, 0, 0, 0, 0]);
    assert_eq!(sym, "m/s");
}

#[test]
fn test_si_symbol_acceleration() {
    let sym = si_symbol(&[1, 0, -2, 0, 0, 0, 0, 0]);
    assert_eq!(sym, "m/s^2");
}

#[test]
fn test_si_symbol_unknown_compound() {
    let sym = si_symbol(&[3, 1, -1, 0, 0, 0, 0, 0]);
    assert_eq!(sym, "m^3*kg/s");
}

#[test]
fn test_build_power_symbol() {
    assert_eq!(build_power_symbol("m", 2), "m^2");
    assert_eq!(build_power_symbol("s", -2), "s^-2");
    assert_eq!(build_power_symbol("m", 1), "m");
    assert_eq!(build_power_symbol("", 2), "");
}

#[test]
fn si_symbol_pure_denominator_and_dimensionless() {
    assert_eq!(si_symbol(&[0, 0, -2, 0, 0, 0, 0, 0]), "s^-2");
    assert_eq!(si_symbol(&[-1, 0, -1, 0, 0, 0, 0, 0]), "m^-1*s^-1");
    assert_eq!(si_symbol(&[0, 0, 0, 0, 0, 0, 0, 0]), "");
    assert_eq!(si_symbol(&[0, 0, 0, 0, 0, 0, 0, 3]), "");
    assert_eq!(si_symbol(&[1, 0, 0, 0, 0, 0, 0, 5]), "m");
}

#[test]
fn compound_symbols() {
    assert_eq!(build_compound_symbol("m", "/", "s"), "m/s");
    assert_eq!(build_compound_symbol("N", "*", "m"), "N*m");
    assert_eq!(build_compound_symbol("m", "*", ""), "");
}

#[test]
fn dimension_arithmetic() {
    let n = [1, 1, -2, 0, 0, 0, 0, 0];
    let m = [1, 0, 0, 0, 0, 0, 0, 0];
    assert_eq!(multiply_dimensions(&n, &m), [2, 1, -2, 0, 0, 0, 0, 0]);
    assert_eq!(divide_dimensions(&n, &m), [0, 1, -2, 0, 0, 0, 0, 0]);
    assert_eq!(raise_dimensions(&m, 3), [3, 0, 0, 0, 0, 0, 0, 0]);
    assert!(same_si_dimensions(&n, &[1, 1, -2, 0, 0, 0, 0, 9]));
    assert!(!same_si_dimensions(&n, &m));
    assert!(is_dimensionless(&[0, 0, 0, 0, 0, 0, 0, 1]));
    assert!(!is_dimensionless(&m));
}

#[test]
fn splitting_quantities() {
    assert_eq!(split_value_and_unit("100 N").unwrap(), ("100".to_string(), "N".to_string()));
    assert_eq!(split_value_and_unit("-3.14e-2rad").unwrap(), ("-3.14e-2".to_string(), "rad".to_string()));
    assert_eq!(split_value_and_unit("5.5 km/s").unwrap(), ("5.5".to_string(), "km/s".to_string()));
    match split_value_and_unit("kg") {
        Err(UnitError::ParseError { input, reason }) => {
            assert_eq!(input, "kg");
            assert_eq!(reason, "no numeric value found");
        },
        other => panic!("unexpected {:?}", other),
    }
    match split_value_and_unit("42  ") {
        Err(UnitError::ParseError { reason, .. }) => assert_eq!(reason, "no unit found"),
        other => panic!("unexpected {:?}", other),
    }
}

#[test]
fn tokens_and_terms() {
    let toks = tokenize_unit("kg*m/s^2").unwrap();
    assert_eq!(toks, vec!["kg", "*", "m", "/", "s", "^", "2"]);
    let toks2 = tokenize_unit("  N m ").unwrap();
    assert_eq!(toks2, vec!["N", "m"]);
    let terms = group_unit_terms(&toks);
    assert_eq!(terms.len(), 3);
    assert_eq!(terms[0].base, "kg");
    assert!(!terms[1].divide);
    assert!(terms[2].divide);
    assert_eq!(terms[2].base, "s");
    assert_eq!(terms[2].exponent, Some("2".to_string()));
    let trailing = group_unit_terms(&tokenize_unit("m^").unwrap());
    assert_eq!(trailing.len(), 2);
    assert_eq!(trailing[1].base, "^");
}

#[test]
fn exponents_parse_like_i8() {
    assert_eq!(parse_i8("2"), Some(2));
    assert_eq!(parse_i8("-128"), Some(-128));
    assert_eq!(parse_i8("+7"), Some(7));
    assert_eq!(parse_i8("128"), None);
    assert_eq!(parse_i8("-"), None);
    assert_eq!(parse_i8("1x"), None);
    assert_eq!(parse_i8(""), None);
}

#[test]
fn test_divide_symbol() {
    // m divided by s
    assert_eq!(build_compound_symbol("m", "/", "s"), "m/s");
    assert_eq!(divide_dimensions(&[1, 0, 0, 0, 0, 0, 0, 0], &[0, 0, 1, 0, 0, 0, 0, 0]), [1, 0, -1, 0, 0, 0, 0, 0]);
}

#[test]
fn test_divide_symbol_with_prefix() {
    // km divided by s
    assert_eq!(build_compound_symbol("km", "/", "s"), "km/s");
}

#[test]
fn test_multiply_symbol() {
    // N times m
    assert_eq!(build_compound_symbol("N", "*", "m"), "N*m");
    assert_eq!(multiply_dimensions(&[1, 1, -2, 0, 0, 0, 0, 0], &[1, 0, 0, 0, 0, 0, 0, 0]), [2, 1, -2, 0, 0, 0, 0, 0]);
}

#[test]
fn test_compound_symbol_empty_propagates() {
    assert_eq!(build_compound_symbol("m", "*", ""), "");
}

fn base_of(name: &str) -> Option<(Dimensions, String)> {
    match name {
        "kg" => Some(([0, 1, 0, 0, 0, 0, 0, 0], "kg".to_string())),
        "m" => Some(([1, 0, 0, 0, 0, 0, 0, 0], "m".to_string())),
        "s" => Some(([0, 0, 1, 0, 0, 0, 0, 0], "s".to_string())),
        _ => None,
    }
}

fn compose(text: &str) -> Option<Result<(Dimensions, String), String>> {
    let tokens = tokenize_unit(text).unwrap();
    let terms = group_unit_terms(&tokens);
    let bases: Vec<Option<(Dimensions, String)>> = terms.iter().map(|t| base_of(&t.base)).collect();
    parse_compound_unit(&terms, &bases)
}

#[test]
fn test_compose_force() {
    let (d, sym) = compose("kg*m/s^2").unwrap().unwrap();
    assert_eq!(d, [1, 1, -2, 0, 0, 0, 0, 0]);
    assert_eq!(sym, "kg*m/s^2");
}

#[test]
fn test_compose_single_base_kept() {
    let (d, sym) = compose("m").unwrap().unwrap();
    assert_eq!(d, [1, 0, 0, 0, 0, 0, 0, 0]);
    assert_eq!(sym, "m");
}

#[test]
fn test_compose_unknown_unit() {
    assert_eq!(compose("m/furlong"), Some(Err("unknown unit: 'furlong'".to_string())));
}

#[test]
fn test_compose_invalid_exponent() {
    assert_eq!(compose("m^x"), Some(Err("invalid exponent: 'x'".to_string())));
    assert_eq!(compose("m^200"), Some(Err("invalid exponent: '200'".to_string())));
}

#[test]
fn test_compose_first_failure_wins() {
    assert_eq!(compose("furlong/m^x"), Some(Err("unknown unit: 'furlong'".to_string())));
}

#[test]
fn test_compose_no_term() {
    assert_eq!(compose("*"), Some(Err("failed to parse compound unit".to_string())));
}

#[test]
fn test_compose_overflow() {
    assert_eq!(compose("m^100*m^100"), None);
    assert_eq!(compose("m^127/m^-2"), None);
    assert_eq!(compose("m^100*s"), Some(Ok(([100, 0, 1, 0, 0, 0, 0, 0], "m^100*s".to_string()))));
}

#[test]
fn test_unit_term_power() {
    let tokens = tokenize_unit("s^-2").unwrap();
    let terms = group_unit_terms(&tokens);
    let r = parse_unit_term(&terms[0], &base_of("s")).unwrap().unwrap();
    assert_eq!(r.0, [0, 0, -2, 0, 0, 0, 0, 0]);
    assert_eq!(r.1, "s^-2");
}
