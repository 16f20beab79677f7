use scientific_calculator_mcp_app::code_mode::{parse, BinOp, Expr, Parser};

fn show(e: &Expr) -> String {
    match e {
        Expr::Num(t) => t.clone(),
        Expr::Const(n) => n.clone(),
        Expr::Call(n, args) => {
            let parts: Vec<String> = args.iter().map(show).collect();
            format!("{}({})", n, parts.join(", "))
        }
        Expr::BinOp(op, l, r) => {
            let sym = match op {
                BinOp::Add => "+",
                BinOp::Sub => "-",
                BinOp::Mul => "*",
                BinOp::Div => "/",
                BinOp::Pow => "^",
            };
            format!("({} {} {})", show(l), sym, show(r))
        }
        Expr::Neg(x) => format!("(-{})", show(x)),
    }
}

fn tree(src: &str) -> String {
    show(&parse(src).expect("parse"))
}

#[test]
fn parse_error_on_unbalanced_parens() {
    let err = parse("1 + (2 * 3").expect_err("expected parse error");
    assert!(err.message.contains(')'));
}

#[test]
fn parse_error_on_trailing_garbage() {
    let err = parse("1 + 2 garbage").expect_err("expected parse error");
    assert!(err.message.contains("trailing"));
}

#[test]
fn simple_arithmetic_trees() {
    assert_eq!(tree("1 + 1"), "(1 + 1)");
    assert_eq!(tree("10 - 4"), "(10 - 4)");
    assert_eq!(tree("3 * 4"), "(3 * 4)");
    assert_eq!(tree("12 / 4"), "(12 / 4)");
}

#[test]
fn multiplication_binds_tighter_than_addition() {
    assert_eq!(tree("1 + 2 * 3"), "(1 + (2 * 3))");
    assert_eq!(tree("(1 + 2) * 3"), "((1 + 2) * 3)");
}

#[test]
fn power_is_right_associative() {
    assert_eq!(tree("2 ^ 3 ^ 2"), "(2 ^ (3 ^ 2))");
}

#[test]
fn subtraction_and_division_are_left_associative() {
    assert_eq!(tree("8 - 4 - 2"), "((8 - 4) - 2)");
    assert_eq!(tree("8 / 4 / 2"), "((8 / 4) / 2)");
}

#[test]
fn unary_minus_applies_to_the_atom() {
    assert_eq!(tree("-(3 + 5)"), "(-(3 + 5))");
    assert_eq!(tree("--2"), "(-(-2))");
    assert_eq!(tree("-2 ^ 2"), "((-2) ^ 2)");
}

#[test]
fn calls_and_constants() {
    assert_eq!(tree("sqrt(64)"), "sqrt(64)");
    assert_eq!(tree("power(2, 10)"), "power(2, 10)");
    assert_eq!(tree("log(1000, 10)"), "log(1000, 10)");
    assert_eq!(tree("pi"), "pi");
    assert_eq!(tree("f()"), "f()");
    assert_eq!(tree("sqrt(power(5, 2) + power(12, 2))"), "sqrt((power(5, 2) + power(12, 2)))");
    assert_eq!(tree("pi * 34 ^ 2"), "(pi * (34 ^ 2))");
    assert_eq!(tree("(3 + 5) ^ 2 / log(1000, 10)"), "(((3 + 5) ^ 2) / log(1000, 10))");
}

#[test]
fn number_literals_keep_their_text() {
    assert_eq!(tree("1e3"), "1e3");
    assert_eq!(tree("1.5e2"), "1.5e2");
    assert_eq!(tree("2e-3"), "2e-3");
    assert_eq!(tree(".5"), ".5");
    assert_eq!(tree("3."), "3.");
    assert_eq!(tree("  \t42\n "), "42");
}

#[test]
fn invalid_number_is_reported_at_its_start() {
    let err = parse("1 + 1.2.3").unwrap_err();
    assert_eq!(err.message, "invalid number '1.2.3'");
    assert_eq!(err.position, 4);
    let err = parse("1e+").unwrap_err();
    assert_eq!(err.message, "invalid number '1e+'");
    assert_eq!(err.position, 0);
    let err = parse(".").unwrap_err();
    assert_eq!(err.message, "invalid number '.'");
}

#[test]
fn exponent_without_digits_ends_the_number() {
    let err = parse("2e").unwrap_err();
    assert_eq!(err.message, "unexpected trailing input 'e'");
    assert_eq!(err.position, 1);
}

#[test]
fn parse_error_messages_and_positions() {
    let err = parse("").unwrap_err();
    assert_eq!(err.message, "unexpected end of expression");
    assert_eq!(err.position, 0);

    let err = parse("1 +   ").unwrap_err();
    assert_eq!(err.message, "unexpected end of expression");
    assert_eq!(err.position, 6);

    let err = parse("1 + (2 * 3").unwrap_err();
    assert_eq!(err.message, "expected ')'");
    assert_eq!(err.position, 10);

    let err = parse("sqrt(1, 2").unwrap_err();
    assert_eq!(err.message, "expected ')' after sqrt(...)");
    assert_eq!(err.position, 9);

    let err = parse("1 + 2 garbage").unwrap_err();
    assert_eq!(err.message, "unexpected trailing input 'garbage'");
    assert_eq!(err.position, 6);

    let err = parse("1 # 2").unwrap_err();
    assert_eq!(err.message, "unexpected trailing input '# 2'");

    let err = parse("# 2").unwrap_err();
    assert_eq!(err.message, "unexpected character '#'");
    assert_eq!(err.position, 0);
}

#[test]
fn non_ascii_character_is_shown_by_its_first_byte() {
    // 'π' is the bytes 0xCF 0x80; the parser shows the first byte as a char.
    let err = parse("2 * π").unwrap_err();
    assert_eq!(err.message, "unexpected character 'Ï'");
    assert_eq!(err.position, 4);
    let err = parse("2 π").unwrap_err();
    assert_eq!(err.message, "unexpected trailing input 'π'");
}

#[test]
fn parser_helpers_move_past_whitespace() {
    let mut p = Parser::new("  ( x_1 ,");
    assert_eq!(p.peek(), Some(b'('));
    assert_eq!(p.pos, 2);
    assert!(!p.eat(b')'));
    assert!(p.eat(b'('));
    p.skip_ws();
    assert_eq!(p.pos, 4);
    assert_eq!(p.parse_ident(), "x_1");
    assert_eq!(p.pos, 7);
    assert!(p.eat(b','));
    assert_eq!(p.peek(), None);
}

#[test]
fn binop_primitive_names() {
    assert_eq!(BinOp::Add.primitive(), "add");
    assert_eq!(BinOp::Sub.primitive(), "subtract");
    assert_eq!(BinOp::Mul.primitive(), "multiply");
    assert_eq!(BinOp::Div.primitive(), "divide");
    assert_eq!(BinOp::Pow.primitive(), "power");
}

#[test]
fn number_literals_are_those_f64_reads() {
    let texts = [
        "1", "1.", ".5", "1.5", "1.5e3", "1e+3", "2E-2", "1.e3", "007", "0.0", "1.2.3", ".", "..",
        "1e5.5", ".e3", "1..2", "3e+4.", "12.34.56",
    ];
    for text in texts {
        let accepted = matches!(parse(text), Ok(Expr::Num(ref t)) if t == text);
        assert_eq!(accepted, text.parse::<f64>().is_ok(), "{}", text);
    }
}

#[test]
fn cloned_expression_is_the_same_tree() {
    let e = parse("sqrt(power(5, 2) + -x) ^ 2 / f()").unwrap();
    assert_eq!(show(&e.clone()), show(&e));
}

#[test]
fn trailing_text_is_quoted_as_written() {
    let err = parse("2 * 3 ÷ 4").unwrap_err();
    assert_eq!(err.message, "unexpected trailing input '÷ 4'");
    assert_eq!(err.position, 6);
}

#[test]
fn invalid_number_leaves_the_parser_after_it() {
    let mut p = Parser::new("1.2.3");
    let err = p.parse_number().unwrap_err();
    assert_eq!(err.message, "invalid number '1.2.3'");
    assert_eq!(err.position, 0);
    assert_eq!(p.pos, 5);
}

#[test]
fn blank_input_ends_at_its_length() {
    for src in ["", "   ", " \t\n\r"] {
        let err = parse(src).unwrap_err();
        assert_eq!(err.message, "unexpected end of expression");
        assert_eq!(err.position, src.len());
    }
}
