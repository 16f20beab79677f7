use scientific_calculator_mcp_app::code_mode::parse;
use scientific_calculator_mcp_app::constants::Constant;
use scientific_calculator_mcp_app::plan::{Operand, StaticError, Step};
use scientific_calculator_mcp_app::primitives::{
    check_divide, check_log, check_power_result, check_sqrt, validate_binary, validate_unary, Failure,
    Primitive,
};
use scientific_calculator_mcp_app::run::{evaluate_with, Run, RunError};

/// A record of one dispatch: the primitive's name and, when it failed, its error code.
type Record = (String, Option<String>);

fn value(o: &Operand, vals: &Vec<f64>) -> f64 {
    match o {
        Operand::Literal(t) => t.parse().unwrap(),
        Operand::Step(i) => vals[*i],
    }
}

fn finish(op: &str, check: Option<Failure>, v: f64) -> (Record, Option<f64>) {
    match check {
        Some(f) => ((op.to_string(), Some(f.code.as_str().to_string())), None),
        None => ((op.to_string(), None), Some(v)),
    }
}

fn dispatch(step: &Step, vals: &Vec<f64>) -> (Record, Option<f64>) {
    match step {
        Step::Constant(c) => {
            let v = match c {
                Constant::Pi => std::f64::consts::PI,
                Constant::E => std::f64::consts::E,
            };
            ((c.op(), None), Some(v))
        }
        Step::Apply(p, ops) => {
            let a: Vec<f64> = ops.iter().map(|o| value(o, vals)).collect();
            let name = p.name();
            match p {
                Primitive::Add => finish(name, validate_binary(*p, a[0].to_bits(), a[1].to_bits()), a[0] + a[1]),
                Primitive::Subtract => finish(name, validate_binary(*p, a[0].to_bits(), a[1].to_bits()), a[0] - a[1]),
                Primitive::Multiply => finish(name, validate_binary(*p, a[0].to_bits(), a[1].to_bits()), a[0] * a[1]),
                Primitive::Divide => finish(name, check_divide(a[0].to_bits(), a[1].to_bits()), a[0] / a[1]),
                Primitive::Negate => finish(name, validate_unary(*p, a[0].to_bits()), -a[0]),
                Primitive::Power => {
                    let r = a[0].powf(a[1]);
                    let check = validate_binary(*p, a[0].to_bits(), a[1].to_bits())
                        .or_else(|| check_power_result(r.to_bits()));
                    finish(name, check, r)
                }
                Primitive::Sqrt => finish(name, check_sqrt(a[0].to_bits()), a[0].sqrt()),
                Primitive::Log => finish(name, check_log(a[0].to_bits(), a[1].to_bits()), a[0].log(a[1])),
            }
        }
        Step::Fail(_) => panic!("never dispatched"),
    }
}

fn eval(src: &str) -> Run<f64, Record> {
    let expr = parse(src).expect("parse");
    evaluate_with(&expr, &dispatch, &value).1
}

fn eval_ok(src: &str) -> (f64, Vec<Record>) {
    let run = eval(src);
    match run.result {
        Ok(v) => (v, run.records),
        Err(e) => panic!("expected a value, got {:?}", e),
    }
}

#[test]
fn parses_and_evaluates_simple_arithmetic() {
    assert_eq!(eval_ok("1 + 1").0, 2.0);
    assert_eq!(eval_ok("10 - 4").0, 6.0);
    assert_eq!(eval_ok("3 * 4").0, 12.0);
    assert_eq!(eval_ok("12 / 4").0, 3.0);
}

#[test]
fn precedence_and_associativity() {
    assert_eq!(eval_ok("1 + 2 * 3").0, 7.0);
    assert_eq!(eval_ok("(1 + 2) * 3").0, 9.0);
    assert_eq!(eval_ok("2 ^ 3 ^ 2").0, 512.0);
    assert_eq!(eval_ok("-(3 + 5)").0, -8.0);
}

#[test]
fn function_calls_and_constants() {
    assert_eq!(eval_ok("sqrt(64)").0, 8.0);
    assert_eq!(eval_ok("power(2, 10)").0, 1024.0);
    assert!((eval_ok("log(1000, 10)").0 - 3.0).abs() < 1e-9);
    let (pi_val, _) = eval_ok("pi");
    assert!((pi_val - std::f64::consts::PI).abs() < 1e-12);
}

#[test]
fn pythagorean_decomposes_to_steps() {
    let (r, steps) = eval_ok("sqrt(power(5, 2) + power(12, 2))");
    assert!((r - 13.0).abs() < 1e-9);
    assert_eq!(steps.len(), 4);
}

#[test]
fn circle_area_with_pi_constant() {
    let (r, steps) = eval_ok("pi * 34 ^ 2");
    assert!((r - std::f64::consts::PI * 1156.0).abs() < 1e-6);
    assert_eq!(steps.len(), 3);
    assert_eq!(steps[0].0, "get_constant(pi)");
}

#[test]
fn step_failure_is_reported_with_partial_trace() {
    let run = eval("sqrt(-1)");
    assert!(matches!(run.result, Err(RunError::StepFailed)));
    // negate(1), then the failed sqrt.
    assert_eq!(run.records.len(), 2);
    let last = run.records.last().unwrap();
    assert_eq!(last.0, "sqrt");
    assert_eq!(last.1.as_deref(), Some("domain_error"));
}

#[test]
fn divide_by_zero_propagates_as_step_failure() {
    let run = eval("1 / 0");
    assert!(matches!(run.result, Err(RunError::StepFailed)));
    assert_eq!(run.records.len(), 1);
    assert_eq!(run.records[0].0, "divide");
    assert_eq!(run.records[0].1.as_deref(), Some("divide_by_zero"));
    assert!(run.values.is_empty());
}

#[test]
fn nothing_runs_after_a_failed_step() {
    let run = eval("1 / 0 + sqrt(4)");
    assert_eq!(run.records.len(), 1);
    assert!(run.values.is_empty());
}

#[test]
fn unknown_name_stops_before_any_dispatch() {
    let run = eval("sqrt(4) + foo(1)");
    assert!(run.records.is_empty());
    match run.result {
        Err(RunError::Static(StaticError::UnknownFunction(n))) => assert_eq!(n, "foo"),
        other => panic!("expected UnknownFunction, got {:?}", other.err()),
    }
}

#[test]
fn scientific_notation_numbers() {
    assert_eq!(eval_ok("1e3").0, 1000.0);
    assert_eq!(eval_ok("1.5e2").0, 150.0);
    assert_eq!(eval_ok("2e-3").0, 0.002);
}

#[test]
fn canonical_decomposition_example_runs_in_one_call() {
    let (r, steps) = eval_ok("(3 + 5) ^ 2 / log(1000, 10)");
    assert!((r - 64.0 / 3.0).abs() < 1e-9);
    let names: Vec<&str> = steps.iter().map(|s| s.0.as_str()).collect();
    assert_eq!(names, vec!["add", "power", "log", "divide"]);
}

/// The static error that stops the evaluation of `src`; nothing was dispatched.
fn static_error(src: &str) -> StaticError {
    let run = eval(src);
    assert!(run.records.is_empty());
    assert!(run.values.is_empty());
    match run.result {
        Err(RunError::Static(e)) => e,
        other => panic!("expected a static error, got {:?}", other.err()),
    }
}

#[test]
fn unknown_function_is_rejected() {
    match static_error("foo(1, 2)") {
        StaticError::UnknownFunction(name) => assert_eq!(name, "foo"),
        other => panic!("expected UnknownFunction, got {:?}", other),
    }
}

#[test]
fn unknown_constant_is_rejected() {
    match static_error("phi") {
        StaticError::UnknownConstant(name) => assert_eq!(name, "phi"),
        other => panic!("expected UnknownConstant, got {:?}", other),
    }
}

#[test]
fn arity_mismatch_is_rejected() {
    match static_error("sqrt(1, 2)") {
        StaticError::Arity { name, expected, got } => {
            assert_eq!(name, "sqrt");
            assert_eq!(expected, 1);
            assert_eq!(got, 2);
        }
        other => panic!("expected Arity, got {:?}", other),
    }
}

#[test]
fn successful_run_records_a_value_for_every_step() {
    let run = eval("sqrt(power(5, 2) + power(12, 2))");
    assert_eq!(run.records.len(), 4);
    assert_eq!(run.values, vec![25.0, 144.0, 169.0, 13.0]);
    assert!(run.records.iter().all(|r| r.1.is_none()));
}
