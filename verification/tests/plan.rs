use scientific_calculator_mcp_app::code_mode::parse;
use scientific_calculator_mcp_app::constants::Constant;
use scientific_calculator_mcp_app::plan::{compile, resolve_call, Operand, Plan, StaticError, Step};
use scientific_calculator_mcp_app::primitives::Primitive;

fn plan(src: &str) -> Plan {
    compile(&parse(src).expect("parse"))
}

fn applied(plan: &Plan) -> Vec<Primitive> {
    plan.steps
        .iter()
        .map(|s| match s {
            Step::Apply(p, _) => *p,
            other => panic!("expected Apply, got {:?}", other),
        })
        .collect()
}

#[test]
fn pythagorean_plan_has_four_steps() {
    let p = plan("sqrt(power(5, 2) + power(12, 2))");
    assert_eq!(
        applied(&p),
        vec![Primitive::Power, Primitive::Power, Primitive::Add, Primitive::Sqrt]
    );
    match &p.steps[2] {
        Step::Apply(_, ops) => {
            assert!(matches!(ops[0], Operand::Step(0)));
            assert!(matches!(ops[1], Operand::Step(1)));
        }
        _ => unreachable!(),
    }
    assert!(matches!(p.result, Operand::Step(3)));
}

#[test]
fn circle_area_plan_looks_up_pi_first() {
    let p = plan("pi * 34 ^ 2");
    assert_eq!(p.steps.len(), 3);
    assert!(matches!(p.steps[0], Step::Constant(Constant::Pi)));
    match &p.steps[1] {
        Step::Apply(Primitive::Power, ops) => match (&ops[0], &ops[1]) {
            (Operand::Literal(a), Operand::Literal(b)) => {
                assert_eq!(a, "34");
                assert_eq!(b, "2");
            }
            other => panic!("unexpected operands {:?}", other),
        },
        other => panic!("unexpected step {:?}", other),
    }
    assert!(matches!(p.steps[2], Step::Apply(Primitive::Multiply, _)));
}

#[test]
fn canonical_decomposition_plan_has_four_steps() {
    let p = plan("(3 + 5) ^ 2 / log(1000, 10)");
    assert_eq!(
        applied(&p),
        vec![Primitive::Add, Primitive::Power, Primitive::Log, Primitive::Divide]
    );
}

#[test]
fn bare_number_needs_no_step() {
    let p = plan("42");
    assert!(p.steps.is_empty());
    match p.result {
        Operand::Literal(t) => assert_eq!(t, "42"),
        _ => panic!("expected the literal"),
    }
}

#[test]
fn negation_and_operators_map_to_primitives() {
    let p = plan("-(1 - 2) * 3 / 4");
    assert_eq!(
        applied(&p),
        vec![Primitive::Subtract, Primitive::Negate, Primitive::Multiply, Primitive::Divide]
    );
}

#[test]
fn unknown_names_are_rejected_before_any_step() {
    let p = plan("sqrt(4) + foo(1)");
    assert_eq!(p.steps.len(), 1);
    match &p.steps[0] {
        Step::Fail(StaticError::UnknownFunction(name)) => assert_eq!(name, "foo"),
        other => panic!("expected UnknownFunction, got {:?}", other),
    }
    // The division by zero would fail when run, but nothing runs.
    let p = plan("1 / 0 + pi * tau");
    assert_eq!(p.steps.len(), 1);
    assert!(matches!(&p.steps[0], Step::Fail(StaticError::UnknownConstant(n)) if n == "tau"));
}

#[test]
fn first_error_in_evaluation_order() {
    // Arguments come before their call.
    assert!(matches!(failure("foo(bar(1), 2)"), StaticError::UnknownFunction(n) if n == "bar"));
    assert!(matches!(failure("sqrt(1, 2) + phi"), StaticError::Arity { .. }));
    assert!(matches!(failure("phi + sqrt(1, 2)"), StaticError::UnknownConstant(n) if n == "phi"));
}

#[test]
fn unknown_constant_alone_is_the_plan() {
    let p = plan("1 + phi * 2");
    assert_eq!(p.steps.len(), 1);
    match &p.steps[0] {
        Step::Fail(StaticError::UnknownConstant(name)) => assert_eq!(name, "phi"),
        other => panic!("expected UnknownConstant, got {:?}", other),
    }
}

/// The error that stops the plan of `src`: its last step.
fn failure(src: &str) -> StaticError {
    let mut p = plan(src);
    match p.steps.pop() {
        Some(Step::Fail(e)) => e,
        other => panic!("expected a failing last step, got {:?}", other),
    }
}

#[test]
fn plan_fails_on_unknown_function() {
    match failure("foo(1, 2)") {
        StaticError::UnknownFunction(name) => assert_eq!(name, "foo"),
        other => panic!("expected UnknownFunction, got {:?}", other),
    }
}

#[test]
fn plan_fails_on_unknown_constant() {
    match failure("phi") {
        StaticError::UnknownConstant(name) => assert_eq!(name, "phi"),
        other => panic!("expected UnknownConstant, got {:?}", other),
    }
}

#[test]
fn plan_fails_on_arity_mismatch() {
    match failure("sqrt(1, 2)") {
        StaticError::Arity { name, expected, got } => {
            assert_eq!(name, "sqrt");
            assert_eq!(expected, 1);
            assert_eq!(got, 2);
        }
        other => panic!("expected Arity, got {:?}", other),
    }
}

#[test]
fn nothing_after_the_first_failure() {
    let p = plan("foo(1) + bar(2)");
    assert_eq!(p.steps.len(), 1);
    match &p.steps[0] {
        Step::Fail(StaticError::UnknownFunction(name)) => assert_eq!(name, "foo"),
        other => panic!("expected UnknownFunction, got {:?}", other),
    }
}

#[test]
fn resolve_call_knows_every_primitive() {
    let cases = [
        ("add", 2, Primitive::Add),
        ("subtract", 2, Primitive::Subtract),
        ("multiply", 2, Primitive::Multiply),
        ("divide", 2, Primitive::Divide),
        ("negate", 1, Primitive::Negate),
        ("power", 2, Primitive::Power),
        ("sqrt", 1, Primitive::Sqrt),
        ("log", 2, Primitive::Log),
    ];
    for (name, argc, p) in cases {
        assert_eq!(resolve_call(name, argc).unwrap(), p);
        assert_eq!(p.name(), name);
        assert_eq!(p.arity(), argc);
    }
}

#[test]
fn get_constant_is_not_callable() {
    match resolve_call("get_constant", 1) {
        Err(StaticError::UnknownFunction(msg)) => {
            assert!(msg.starts_with("get_constant takes a name, not a number"));
        }
        other => panic!("expected UnknownFunction, got {:?}", other),
    }
    match resolve_call("Add", 2) {
        Err(StaticError::UnknownFunction(msg)) => assert_eq!(msg, "Add"),
        other => panic!("expected UnknownFunction, got {:?}", other),
    }
}
