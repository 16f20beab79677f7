use scientific_calculator_mcp_app::constants::{resolve_constant, Constant};
use scientific_calculator_mcp_app::ieee;
use scientific_calculator_mcp_app::primitives::{
    check_divide, check_log, check_power_result, check_sqrt, validate_binary, validate_unary,
    ErrorCode, Primitive,
};

fn b(x: f64) -> u64 {
    x.to_bits()
}

#[test]
fn ieee_predicates_match_float_comparisons() {
    let samples = [
        0.0, -0.0, 1.0, -1.0, 0.5, -1e-12, 1e308, -1e308, f64::MIN_POSITIVE, 5e-324,
        f64::INFINITY, f64::NEG_INFINITY, f64::NAN, -f64::NAN,
    ];
    for x in samples {
        assert_eq!(ieee::finite(b(x)), x.is_finite(), "finite {}", x);
        assert_eq!(ieee::nan(b(x)), x.is_nan(), "nan {}", x);
        assert_eq!(ieee::zero(b(x)), x == 0.0, "zero {}", x);
        assert_eq!(ieee::negative(b(x)), x < 0.0, "negative {}", x);
        assert_eq!(ieee::nonpositive(b(x)), x <= 0.0, "nonpositive {}", x);
        assert_eq!(ieee::one(b(x)), x == 1.0, "one {}", x);
    }
}

#[test]
fn binary_operands_must_be_finite() {
    assert!(validate_binary(Primitive::Add, b(1.0), b(1.0)).is_none());
    let f = validate_binary(Primitive::Add, b(f64::NAN), b(1.0)).unwrap();
    assert_eq!(f.code, ErrorCode::InvalidInput);
    assert_eq!(f.code.as_str(), "invalid_input");
    assert_eq!(f.message, "add requires finite numeric inputs.");
    let f = validate_binary(Primitive::Power, b(2.0), b(f64::INFINITY)).unwrap();
    assert_eq!(f.message, "power requires finite numeric inputs.");
}

#[test]
fn unary_operand_must_be_finite() {
    assert!(validate_unary(Primitive::Negate, b(-2.5)).is_none());
    let f = validate_unary(Primitive::Negate, b(f64::NAN)).unwrap();
    assert_eq!(f.code, ErrorCode::InvalidInput);
    assert_eq!(f.message, "negate requires a finite numeric input.");
}

#[test]
fn divide_refuses_zero_divisor() {
    assert!(check_divide(b(64.0), b(8.0)).is_none());
    let f = check_divide(b(1.0), b(0.0)).unwrap();
    assert_eq!(f.code.as_str(), "divide_by_zero");
    assert_eq!(f.message, "Cannot divide by zero.");
    let f = check_divide(b(1.0), b(-0.0)).unwrap();
    assert_eq!(f.code, ErrorCode::DivideByZero);
    let f = check_divide(b(f64::INFINITY), b(0.0)).unwrap();
    assert_eq!(f.code, ErrorCode::InvalidInput);
    assert_eq!(f.message, "divide requires finite numeric inputs.");
}

#[test]
fn power_refuses_non_finite_results() {
    assert!(check_power_result(b(1024.0)).is_none());
    let f = check_power_result(b((-1.0f64).powf(0.5))).unwrap();
    assert_eq!(f.code.as_str(), "domain_error");
    let f = check_power_result(b(0.0f64.powf(-1.0))).unwrap();
    assert_eq!(f.message, "power produced a non-finite result (overflow or undefined).");
}

#[test]
fn sqrt_refuses_negative_numbers() {
    assert!(check_sqrt(b(0.0)).is_none());
    assert!(check_sqrt(b(-0.0)).is_none());
    assert!(check_sqrt(b(64.0)).is_none());
    let f = check_sqrt(b(-1e-12)).unwrap();
    assert_eq!(f.code, ErrorCode::DomainError);
    assert_eq!(f.message, "sqrt is undefined for negative numbers in the reals.");
    let f = check_sqrt(b(f64::INFINITY)).unwrap();
    assert_eq!(f.code, ErrorCode::InvalidInput);
    assert_eq!(f.message, "sqrt requires a finite numeric input.");
}

#[test]
fn log_domain_checks_in_order() {
    assert!(check_log(b(1000.0), b(10.0)).is_none());
    assert!(check_log(b(8.0), b(2.0)).is_none());
    assert_eq!(check_log(b(-1.0), b(10.0)).unwrap().message, "log argument must be positive.");
    assert_eq!(check_log(b(0.0), b(10.0)).unwrap().code, ErrorCode::DomainError);
    for base in [0.0, 1.0, -2.0] {
        let f = check_log(b(10.0), b(base)).unwrap();
        assert_eq!(f.code, ErrorCode::DomainError);
        assert_eq!(f.message, "log base must be positive and not equal to 1.");
    }
    let f = check_log(b(f64::NAN), b(10.0)).unwrap();
    assert_eq!(f.code, ErrorCode::InvalidInput);
    assert_eq!(f.message, "log requires finite numeric inputs.");
    let f = check_log(b(10.0), b(f64::INFINITY)).unwrap();
    assert_eq!(f.code, ErrorCode::InvalidInput);
}

#[test]
fn constants_by_name() {
    assert_eq!(resolve_constant("pi").unwrap(), Constant::Pi);
    assert_eq!(resolve_constant("E").unwrap(), Constant::E);
    assert_eq!(resolve_constant("  π  ").unwrap(), Constant::Pi);
    assert_eq!(resolve_constant("PI").unwrap(), Constant::Pi);
    assert_eq!(resolve_constant("\u{a0}e\u{3000}").unwrap(), Constant::E);
    assert_eq!(resolve_constant("\t\n Pi \r").unwrap(), Constant::Pi);
    assert_eq!(Constant::Pi.op(), "get_constant(pi)");
    assert_eq!(Constant::E.op(), "get_constant(e)");
    assert_eq!(Constant::E.name(), "e");
}

#[test]
fn unknown_constant_quotes_the_name() {
    let f = resolve_constant("phi").unwrap_err();
    assert_eq!(f.code, ErrorCode::UnknownConstant);
    assert_eq!(f.code.as_str(), "unknown_constant");
    assert_eq!(f.message, "Unknown constant 'phi'. Supported: pi, e.");
    assert!(f.message.to_lowercase().contains("unknown"));
    let f = resolve_constant(" tau ").unwrap_err();
    assert_eq!(f.message, "Unknown constant ' tau '. Supported: pi, e.");
}

#[test]
fn divide_by_zero_is_structured_error() {
    let f = check_divide(b(1.0), b(0.0)).unwrap();
    assert_eq!(f.code.as_str(), "divide_by_zero");
    assert_eq!(Primitive::Divide.name(), "divide");
    assert!(f.message.to_lowercase().contains("zero"));
}

#[test]
fn invalid_inputs_are_structured_errors() {
    let f = validate_binary(Primitive::Add, b(f64::NAN), b(1.0)).unwrap();
    assert_eq!(f.code.as_str(), "invalid_input");
    let f = check_divide(b(f64::INFINITY), b(1.0)).unwrap();
    assert_eq!(f.code.as_str(), "invalid_input");
    let f = validate_unary(Primitive::Negate, b(f64::NAN)).unwrap();
    assert_eq!(f.code.as_str(), "invalid_input");
}

#[test]
fn power_invalid_input() {
    let f = validate_binary(Primitive::Power, b(f64::NAN), b(2.0)).unwrap();
    assert_eq!(f.code.as_str(), "invalid_input");
    let f = validate_binary(Primitive::Power, b(2.0), b(f64::INFINITY)).unwrap();
    assert_eq!(f.code.as_str(), "invalid_input");
}

#[test]
fn power_domain_error_on_undefined_result() {
    // (-1)^0.5 is non-real, NaN; 0^-1 is infinite. The operands themselves are fine.
    assert!(validate_binary(Primitive::Power, b(-1.0), b(0.5)).is_none());
    let f = check_power_result(b((-1.0f64).powf(0.5))).unwrap();
    assert_eq!(f.code.as_str(), "domain_error");
    assert!(validate_binary(Primitive::Power, b(0.0), b(-1.0)).is_none());
    let f = check_power_result(b(0.0f64.powf(-1.0))).unwrap();
    assert_eq!(f.code.as_str(), "domain_error");
}

#[test]
fn sqrt_negative_is_domain_error() {
    assert_eq!(check_sqrt(b(-1.0)).unwrap().code.as_str(), "domain_error");
    assert_eq!(check_sqrt(b(-1e-12)).unwrap().code.as_str(), "domain_error");
}

#[test]
fn sqrt_invalid_input() {
    assert_eq!(check_sqrt(b(f64::NAN)).unwrap().code.as_str(), "invalid_input");
    assert_eq!(check_sqrt(b(f64::INFINITY)).unwrap().code.as_str(), "invalid_input");
}

#[test]
fn log_domain_errors() {
    assert_eq!(check_log(b(-1.0), b(10.0)).unwrap().code.as_str(), "domain_error");
    assert_eq!(check_log(b(0.0), b(10.0)).unwrap().code.as_str(), "domain_error");
    assert_eq!(check_log(b(10.0), b(0.0)).unwrap().code.as_str(), "domain_error");
    assert_eq!(check_log(b(10.0), b(1.0)).unwrap().code.as_str(), "domain_error");
    assert_eq!(check_log(b(10.0), b(-2.0)).unwrap().code.as_str(), "domain_error");
}

#[test]
fn log_invalid_input() {
    assert_eq!(check_log(b(f64::NAN), b(10.0)).unwrap().code.as_str(), "invalid_input");
    assert_eq!(check_log(b(10.0), b(f64::INFINITY)).unwrap().code.as_str(), "invalid_input");
}

#[test]
fn get_constant_pi_and_e() {
    let c = resolve_constant("pi").unwrap();
    assert_eq!(c, Constant::Pi);
    assert_eq!(c.op(), "get_constant(pi)");
    let c = resolve_constant("E").unwrap();
    assert_eq!(c, Constant::E);
    assert_eq!(c.op(), "get_constant(e)");
    // Unicode π and stray whitespace both resolve.
    assert_eq!(resolve_constant("  π  ").unwrap(), Constant::Pi);
}

#[test]
fn get_constant_unknown_is_structured_error() {
    let f = resolve_constant("phi").unwrap_err();
    assert_eq!(f.code.as_str(), "unknown_constant");
    assert!(f.message.to_lowercase().contains("unknown"));
}
