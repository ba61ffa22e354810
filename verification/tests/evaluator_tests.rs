use expression_parser::evaluator::{
    Evaluator, Function, Instruction, IDENTIFIER_PATTERN, NUMBER_PATTERN,
};
use expression_parser::parser::{BinaryOperator, Error, Expr};
use regex::Regex;

fn run(program: &[Instruction]) -> f64 {
    let mut stack: Vec<f64> = Vec::new();
    for instruction in program {
        match instruction {
            Instruction::Push(text) => stack.push(text.parse().unwrap()),
            Instruction::Apply(operator) => {
                let right = stack.pop().unwrap();
                let left = stack.pop().unwrap();
                stack.push(match operator {
                    BinaryOperator::Add => left + right,
                    BinaryOperator::Subtract => left - right,
                    BinaryOperator::Multiply => left * right,
                    BinaryOperator::Divide => left / right,
                    BinaryOperator::Power => left.powf(right),
                    BinaryOperator::Modulo => left % right,
                });
            }
            Instruction::Invoke(function) => {
                let value = stack.pop().unwrap();
                stack.push(match function {
                    Function::Sin => value.sin(),
                    Function::Cos => value.cos(),
                });
            }
        }
    }
    assert_eq!(stack.len(), 1);
    stack[0]
}

fn value(source: &str) -> f64 {
    run(&Evaluator::evaluate(source).unwrap())
}

fn listing(program: &[Instruction]) -> String {
    format!("{:?}", program)
}

#[test]
fn patterns() {
    assert_eq!(NUMBER_PATTERN, r"-?[0-9]+\.?[0-9]*");
    assert_eq!(IDENTIFIER_PATTERN, r"[a-zA-Z_]+[a-zA-Z0-9_]*");
}

#[test]
fn resolve_knows_sin_and_cos() {
    assert_eq!(Evaluator::resolve("sin"), Some(Function::Sin));
    assert_eq!(Evaluator::resolve("cos"), Some(Function::Cos));
    assert_eq!(Evaluator::resolve("tan"), None);
    assert_eq!(Evaluator::resolve("Sin"), None);
    assert_eq!(Evaluator::resolve("sine"), None);
    assert_eq!(Evaluator::resolve(""), None);
}

#[test]
fn a_program_lists_operands_before_operators() {
    assert_eq!(
        listing(&Evaluator::evaluate("1 + 2 * 3").unwrap()),
        r#"[Push("1"), Push("2"), Push("3"), Apply(Multiply), Apply(Add)]"#
    );
    assert_eq!(
        listing(&Evaluator::evaluate("(1 + 2) * 3").unwrap()),
        r#"[Push("1"), Push("2"), Apply(Add), Push("3"), Apply(Multiply)]"#
    );
    assert_eq!(
        listing(&Evaluator::evaluate("cos(1 + 2)").unwrap()),
        r#"[Push("1"), Push("2"), Apply(Add), Invoke(Cos)]"#
    );
    assert_eq!(listing(&Evaluator::evaluate("5.").unwrap()), r#"[Push("5.")]"#);
}

#[test]
fn visit_lowers_a_tree_built_by_hand() {
    let expr = Expr::BinaryOperatorExpr(
        Box::new(Expr::CallExpr(
            String::from("sin"),
            Box::new(Expr::NumberExpr(String::from("0"))),
        )),
        BinaryOperator::Power,
        Box::new(Expr::NumberExpr(String::from("2"))),
    );
    assert_eq!(
        listing(&Evaluator::visit(&expr).unwrap()),
        r#"[Push("0"), Invoke(Sin), Push("2"), Apply(Power)]"#
    );
}

#[test]
fn visit_reports_the_first_unknown_name_in_evaluation_order() {
    let call = |name: &str, argument: Expr| Expr::CallExpr(String::from(name), Box::new(argument));
    let one = || Expr::NumberExpr(String::from("1"));
    let nested = call("outer", call("inner", one()));
    assert!(matches!(
        Evaluator::visit(&nested),
        Err(Error::UnresolvedReference(name)) if name == "inner"
    ));
    let sides = Expr::BinaryOperatorExpr(
        Box::new(call("left", one())),
        BinaryOperator::Add,
        Box::new(call("right", one())),
    );
    assert!(matches!(
        Evaluator::visit(&sides),
        Err(Error::UnresolvedReference(name)) if name == "left"
    ));
    let right_only = Expr::BinaryOperatorExpr(
        Box::new(call("sin", one())),
        BinaryOperator::Add,
        Box::new(call("right", one())),
    );
    assert!(matches!(
        Evaluator::visit(&right_only),
        Err(Error::UnresolvedReference(name)) if name == "right"
    ));
}

#[test]
fn same_tier_operators_run_left_to_right() {
    assert_eq!(value("2 ** 10 / 16 * 32 - (1024 + 512)"), 512.0);
    assert_eq!(value("2 * 3 ** 2"), 36.0);
    assert_eq!(value("10 - 4 - 3"), 3.0);
    assert_eq!(value("100 / 10 / 5"), 2.0);
}

#[test]
fn parentheses_change_the_value() {
    assert_eq!(value("(1 + 2) * 3"), 9.0);
    assert_eq!(value("1 + 2 * 3"), 7.0);
}

#[test]
fn function_calls() {
    assert_eq!(value("cos(1 + 2)"), 3.0_f64.cos());
    assert!((value("cos(1 + 2)") - -0.9899924966004454).abs() < 1e-15);
    assert_eq!(value("sin(0)"), 0.0);
    assert_eq!(value("sin(cos(0))"), 1.0_f64.sin());
    assert_eq!(value("2 * cos(0) + 1"), 3.0);
}

#[test]
fn unknown_function() {
    assert!(matches!(
        Evaluator::evaluate("tan(1)"),
        Err(Error::UnresolvedReference(name)) if name == "tan"
    ));
    assert!(matches!(
        Evaluator::evaluate("tan(foo(1))"),
        Err(Error::UnresolvedReference(name)) if name == "foo"
    ));
}

#[test]
fn malformed_input() {
    assert!(matches!(Evaluator::evaluate("(1 + 2"), Err(Error::UnexpectedToken)));
    assert!(matches!(Evaluator::evaluate(""), Err(Error::UnexpectedToken)));
    assert!(matches!(Evaluator::evaluate("   "), Err(Error::UnexpectedToken)));
    assert!(matches!(Evaluator::evaluate("1 +"), Err(Error::UnexpectedToken)));
    assert!(matches!(Evaluator::evaluate("x"), Err(Error::UnexpectedToken)));
}

#[test]
fn a_parse_error_comes_before_an_unknown_name() {
    assert!(matches!(Evaluator::evaluate("tan(1) + )"), Err(Error::UnexpectedToken)));
}

#[test]
fn division_and_modulo_by_zero_are_no_errors() {
    assert_eq!(value("1 / 0"), f64::INFINITY);
    assert_eq!(value("-1 / 0"), f64::NEG_INFINITY);
    let nan = value("0 / 0");
    assert!(nan != nan);
    let nan = value("1 % 0");
    assert!(nan != nan);
}

#[test]
fn remainder_takes_the_sign_of_the_left_operand() {
    assert_eq!(value("7 % 4"), 3.0);
    assert_eq!(value("-7 % 4"), -3.0);
    assert_eq!(value("7 % -4"), 3.0);
    assert_eq!(value("7.5 % 2"), 1.5);
}

#[test]
fn power_takes_fractions_and_negatives() {
    assert_eq!(value("4 ** 0.5"), 2.0);
    assert_eq!(value("2 ** -1"), 0.5);
    let nan = value("-8 ** 0.5");
    assert!(nan != nan);
}

#[test]
fn a_trailing_point_is_a_number() {
    assert_eq!(value("5."), 5.0);
    assert_eq!(value("5. + .5"), 10.0);
}

#[test]
fn trailing_tokens_do_not_count() {
    assert_eq!(value("1 2"), 1.0);
    assert_eq!(value("1-1"), 1.0);
    assert_eq!(value("3 )"), 3.0);
}

#[test]
fn characters_outside_the_language_do_not_count() {
    assert_eq!(value("1 + é2"), 3.0);
    assert_eq!(value("\t2\n*\r3 "), 6.0);
    assert_eq!(value("2 # 3"), 2.0);
}

#[test]
fn evaluation_is_reproducible() {
    let source = "2 ** 10 / 16 * 32 - (1024 + cos(0.5))";
    let first = Evaluator::evaluate(source).unwrap();
    let second = Evaluator::evaluate(source).unwrap();
    assert_eq!(listing(&first), listing(&second));
    assert_eq!(run(&first).to_bits(), run(&second).to_bits());
    for _ in 0..10 {
        assert_eq!(value(source).to_bits(), run(&first).to_bits());
    }
}

#[test]
fn programs_push_literals_only() {
    for source in ["5.", "-0. + 007", "cos(1.50) ** -2", "1 + 2 * 3 - 4 / 5 % 6"] {
        for instruction in Evaluator::evaluate(source).unwrap() {
            if let Instruction::Push(text) = instruction {
                assert!(expression_parser::number::is_number(&text));
                assert!(text.parse::<f64>().is_ok());
            }
        }
    }
}

#[test]
fn a_missing_pattern_is_an_invalid_rule() {
    let number = || Regex::new(NUMBER_PATTERN).ok();
    let identifier = || Regex::new(IDENTIFIER_PATTERN).ok();
    assert!(matches!(
        Evaluator::evaluate_with(None, identifier(), "1 + 2"),
        Err(Error::InvalidRule)
    ));
    assert!(matches!(Evaluator::evaluate_with(number(), None, "1 + 2"), Err(Error::InvalidRule)));
    assert!(matches!(Evaluator::evaluate_with(None, None, ""), Err(Error::InvalidRule)));
    assert!(matches!(
        Evaluator::evaluate_with(Regex::new("[0-9").ok(), identifier(), "1"),
        Err(Error::InvalidRule)
    ));
    assert_eq!(
        listing(&Evaluator::evaluate_with(number(), identifier(), "1 + 2").unwrap()),
        listing(&Evaluator::evaluate("1 + 2").unwrap())
    );
}

#[test]
fn an_empty_token_is_an_invalid_rule() {
    let loose = Regex::new("[0-9]*").ok();
    let identifier = Regex::new(IDENTIFIER_PATTERN).ok();
    assert!(matches!(
        Evaluator::evaluate_with(loose, identifier, "1 + 2"),
        Err(Error::InvalidRule)
    ));
    let loose = Regex::new("[0-9]*").ok();
    let identifier = Regex::new(IDENTIFIER_PATTERN).ok();
    assert_eq!(
        listing(&Evaluator::evaluate_with(loose, identifier, "12").unwrap()),
        r#"[Push("12")]"#
    );
}

#[test]
fn other_patterns_give_other_tokens() {
    let digits = Regex::new("[0-9]+").ok();
    let identifier = Regex::new(IDENTIFIER_PATTERN).ok();
    assert_eq!(
        listing(&Evaluator::evaluate_with(digits, identifier, "1-1").unwrap()),
        r#"[Push("1"), Push("1"), Apply(Subtract)]"#
    );
}
