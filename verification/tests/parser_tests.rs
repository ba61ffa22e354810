use expression_parser::lexer::{Lexer, Rule, Token, TokenKind};
use expression_parser::parser::{BinaryOperator, Error, Expr, Parser};
use regex::Regex;

fn lex(source: &str) -> Vec<Token<'_>> {
    Lexer::new(vec![
        Rule::with_regex(TokenKind::Number, Regex::new(r"-?[0-9]+\.?[0-9]*").unwrap()),
        Rule::with_regex(TokenKind::Identifier, Regex::new(r"[a-zA-Z_]+[a-zA-Z0-9_]*").unwrap()),
        Rule::with_keyword(TokenKind::Plus, "+"),
        Rule::with_keyword(TokenKind::Minus, "-"),
        Rule::with_keyword(TokenKind::StarStar, "**"),
        Rule::with_keyword(TokenKind::Star, "*"),
        Rule::with_keyword(TokenKind::Slash, "/"),
        Rule::with_keyword(TokenKind::Percent, "%"),
        Rule::with_keyword(TokenKind::OpenParen, "("),
        Rule::with_keyword(TokenKind::CloseParen, ")"),
    ])
    .parse(source)
}

fn tree(source: &str) -> String {
    format!("{:?}", Parser::new(lex(source)).parse().unwrap())
}

fn failure(source: &str) -> Error {
    Parser::new(lex(source)).parse().unwrap_err()
}

#[test]
fn get_binary_operator_maps_each_operator() {
    assert_eq!(Parser::get_binary_operator(TokenKind::Plus).unwrap(), BinaryOperator::Add);
    assert_eq!(Parser::get_binary_operator(TokenKind::Minus).unwrap(), BinaryOperator::Subtract);
    assert_eq!(Parser::get_binary_operator(TokenKind::Star).unwrap(), BinaryOperator::Multiply);
    assert_eq!(Parser::get_binary_operator(TokenKind::Slash).unwrap(), BinaryOperator::Divide);
    assert_eq!(Parser::get_binary_operator(TokenKind::StarStar).unwrap(), BinaryOperator::Power);
    assert_eq!(Parser::get_binary_operator(TokenKind::Percent).unwrap(), BinaryOperator::Modulo);
}

#[test]
fn get_binary_operator_refuses_other_kinds() {
    for kind in [
        TokenKind::Number,
        TokenKind::Identifier,
        TokenKind::OpenParen,
        TokenKind::CloseParen,
        TokenKind::EOF,
    ] {
        assert!(matches!(
            Parser::get_binary_operator(kind),
            Err(Error::UnexpectedBinaryOperator)
        ));
    }
}

#[test]
fn operator_symbols() {
    assert_eq!(BinaryOperator::Add.symbol(), "+");
    assert_eq!(BinaryOperator::Subtract.symbol(), "-");
    assert_eq!(BinaryOperator::Multiply.symbol(), "*");
    assert_eq!(BinaryOperator::Divide.symbol(), "/");
    assert_eq!(BinaryOperator::Power.symbol(), "^");
    assert_eq!(BinaryOperator::Modulo.symbol(), "%");
}

#[test]
fn error_messages() {
    assert_eq!(Error::ParseError.message(), "Parse error");
    assert_eq!(Error::UnexpectedToken.message(), "Unexpected token");
    assert_eq!(Error::UnexpectedBinaryOperator.message(), "Unexpected binary operator");
    assert_eq!(
        Error::UnresolvedReference(String::from("tan")).message(),
        "Unresolved reference: tan"
    );
    assert_eq!(Error::InvalidRule.message(), "Invalid rule");
}

#[test]
fn curr_is_the_sentinel_past_the_end() {
    let parser = Parser::new(vec![]);
    let token = parser.curr();
    assert_eq!(token.kind, TokenKind::EOF);
    assert_eq!(token.slice, "");
}

#[test]
fn eat_advances_on_a_match_only() {
    let mut parser = Parser::new(lex("1 +"));
    assert_eq!(parser.curr().slice, "1");
    assert!(matches!(parser.eat(TokenKind::Plus), Err(Error::UnexpectedToken)));
    assert_eq!(parser.curr().slice, "1");
    assert!(parser.eat(TokenKind::Number).is_ok());
    assert_eq!(parser.curr().kind, TokenKind::Plus);
    assert!(parser.eat(TokenKind::Plus).is_ok());
    assert_eq!(parser.curr().kind, TokenKind::EOF);
    assert!(matches!(parser.eat(TokenKind::Plus), Err(Error::UnexpectedToken)));
    assert_eq!(parser.curr().kind, TokenKind::EOF);
}

#[test]
fn eat_never_takes_the_sentinel() {
    let mut parser = Parser::new(lex("1"));
    assert!(parser.eat(TokenKind::Number).is_ok());
    assert_eq!(parser.curr().kind, TokenKind::EOF);
    assert!(matches!(parser.eat(TokenKind::EOF), Err(Error::UnexpectedToken)));
    assert!(matches!(parser.eat(TokenKind::EOF), Err(Error::UnexpectedToken)));
    assert!(matches!(parser.eat(TokenKind::Number), Err(Error::UnexpectedToken)));
    assert_eq!(parser.curr().kind, TokenKind::EOF);
    assert_eq!(parser.curr().slice, "");
    let mut empty = Parser::new(vec![]);
    assert!(matches!(empty.eat(TokenKind::EOF), Err(Error::UnexpectedToken)));
    assert!(matches!(empty.parse(), Err(Error::UnexpectedToken)));
}

#[test]
fn eat_does_not_move_past_the_end() {
    let mut parser = Parser::new(vec![Token::new(TokenKind::Plus, "+")]);
    for kind in [
        TokenKind::Number,
        TokenKind::Identifier,
        TokenKind::Minus,
        TokenKind::Star,
        TokenKind::Slash,
        TokenKind::StarStar,
        TokenKind::Percent,
        TokenKind::OpenParen,
        TokenKind::CloseParen,
        TokenKind::EOF,
    ] {
        assert!(matches!(parser.eat(kind), Err(Error::UnexpectedToken)));
        assert_eq!(parser.curr().slice, "+");
    }
    assert!(parser.eat(TokenKind::Plus).is_ok());
    assert!(matches!(parser.eat(TokenKind::Plus), Err(Error::UnexpectedToken)));
}

#[test]
fn eat_takes_a_token_of_the_sequence_whatever_its_kind() {
    let mut parser = Parser::new(vec![
        Token::new(TokenKind::EOF, "end"),
        Token::new(TokenKind::Number, "1"),
    ]);
    assert_eq!(parser.curr().slice, "end");
    assert!(parser.eat(TokenKind::EOF).is_ok());
    assert_eq!(parser.curr().slice, "1");
}

#[test]
fn a_number_is_kept_as_its_text() {
    assert_eq!(tree("42"), r#"NumberExpr("42")"#);
    assert_eq!(tree("5."), r#"NumberExpr("5.")"#);
    assert_eq!(tree("-3.5"), r#"NumberExpr("-3.5")"#);
}

#[test]
fn terms_bind_tighter_than_sums() {
    assert_eq!(
        tree("1 + 2 * 3"),
        r#"BinaryOperatorExpr(NumberExpr("1"), Add, BinaryOperatorExpr(NumberExpr("2"), Multiply, NumberExpr("3")))"#
    );
    assert_eq!(
        tree("1 * 2 + 3"),
        r#"BinaryOperatorExpr(BinaryOperatorExpr(NumberExpr("1"), Multiply, NumberExpr("2")), Add, NumberExpr("3"))"#
    );
}

#[test]
fn parentheses_override_precedence() {
    assert_eq!(
        tree("(1 + 2) * 3"),
        r#"BinaryOperatorExpr(BinaryOperatorExpr(NumberExpr("1"), Add, NumberExpr("2")), Multiply, NumberExpr("3"))"#
    );
    assert_eq!(tree("((7))"), r#"NumberExpr("7")"#);
}

#[test]
fn both_tiers_associate_to_the_left() {
    assert_eq!(
        tree("1 - 2 - 3"),
        r#"BinaryOperatorExpr(BinaryOperatorExpr(NumberExpr("1"), Subtract, NumberExpr("2")), Subtract, NumberExpr("3"))"#
    );
    assert_eq!(
        tree("8 / 4 / 2"),
        r#"BinaryOperatorExpr(BinaryOperatorExpr(NumberExpr("8"), Divide, NumberExpr("4")), Divide, NumberExpr("2"))"#
    );
}

#[test]
fn power_shares_the_tier_of_multiplication() {
    assert_eq!(
        tree("2 ** 10 / 16"),
        r#"BinaryOperatorExpr(BinaryOperatorExpr(NumberExpr("2"), Power, NumberExpr("10")), Divide, NumberExpr("16"))"#
    );
    assert_eq!(
        tree("2 * 3 ** 2"),
        r#"BinaryOperatorExpr(BinaryOperatorExpr(NumberExpr("2"), Multiply, NumberExpr("3")), Power, NumberExpr("2"))"#
    );
    assert_eq!(
        tree("7 % 4"),
        r#"BinaryOperatorExpr(NumberExpr("7"), Modulo, NumberExpr("4"))"#
    );
}

#[test]
fn a_call_binds_tighter_than_operators() {
    assert_eq!(
        tree("cos(1 + 2)"),
        r#"CallExpr("cos", BinaryOperatorExpr(NumberExpr("1"), Add, NumberExpr("2")))"#
    );
    assert_eq!(
        tree("2 * sin(0) + 1"),
        r#"BinaryOperatorExpr(BinaryOperatorExpr(NumberExpr("2"), Multiply, CallExpr("sin", NumberExpr("0"))), Add, NumberExpr("1"))"#
    );
    assert_eq!(tree("f(g(1))"), r#"CallExpr("f", CallExpr("g", NumberExpr("1")))"#);
}

#[test]
fn an_unknown_name_still_parses() {
    assert_eq!(tree("tan(1)"), r#"CallExpr("tan", NumberExpr("1"))"#);
}

#[test]
fn missing_close_paren_is_unexpected() {
    assert!(matches!(failure("(1 + 2"), Error::UnexpectedToken));
    assert!(matches!(failure("cos(1"), Error::UnexpectedToken));
}

#[test]
fn empty_input_is_unexpected() {
    assert!(matches!(failure(""), Error::UnexpectedToken));
    assert!(matches!(Parser::new(vec![]).parse(), Err(Error::UnexpectedToken)));
}

#[test]
fn missing_operand_is_unexpected() {
    assert!(matches!(failure("1 +"), Error::UnexpectedToken));
    assert!(matches!(failure("1 * )"), Error::UnexpectedToken));
    assert!(matches!(failure("* 1"), Error::UnexpectedToken));
    assert!(matches!(failure(")"), Error::UnexpectedToken));
    assert!(matches!(failure("()"), Error::UnexpectedToken));
}

#[test]
fn a_name_without_parenthesis_is_unexpected() {
    assert!(matches!(failure("x"), Error::UnexpectedToken));
    assert!(matches!(failure("x + 1"), Error::UnexpectedToken));
    assert!(matches!(failure("cos 1"), Error::UnexpectedToken));
}

#[test]
fn a_number_token_that_is_no_literal_is_a_parse_error() {
    let tokens = vec![Token::new(TokenKind::Number, "1x")];
    assert!(matches!(Parser::new(tokens).parse(), Err(Error::ParseError)));
    let tokens = vec![Token::new(TokenKind::Number, "-")];
    assert!(matches!(Parser::new(tokens).parse(), Err(Error::ParseError)));
    let tokens = vec![
        Token::new(TokenKind::Number, "1"),
        Token::new(TokenKind::Plus, "+"),
        Token::new(TokenKind::Number, "."),
    ];
    assert!(matches!(Parser::new(tokens).parse(), Err(Error::ParseError)));
}

#[test]
fn the_first_error_wins() {
    let tokens = vec![
        Token::new(TokenKind::OpenParen, "("),
        Token::new(TokenKind::Number, "oops"),
    ];
    assert!(matches!(Parser::new(tokens).parse(), Err(Error::ParseError)));
    let tokens = vec![
        Token::new(TokenKind::Plus, "+"),
        Token::new(TokenKind::Number, "oops"),
    ];
    assert!(matches!(Parser::new(tokens).parse(), Err(Error::UnexpectedToken)));
}

#[test]
fn a_failed_number_is_not_eaten() {
    let mut parser = Parser::new(vec![Token::new(TokenKind::Number, "1x")]);
    assert!(parser.parse().is_err());
    assert_eq!(parser.curr().slice, "1x");
}

#[test]
fn trailing_tokens_are_left_unread() {
    assert_eq!(tree("1 2"), r#"NumberExpr("1")"#);
    assert_eq!(tree("1 )"), r#"NumberExpr("1")"#);
    assert_eq!(tree("1-1"), r#"NumberExpr("1")"#);
    let mut parser = Parser::new(lex("1 + 2 ) 3"));
    assert!(parser.parse().is_ok());
    assert_eq!(parser.curr().kind, TokenKind::CloseParen);
}

#[test]
fn productions_can_be_called_one_by_one() {
    let mut parser = Parser::new(lex("2 * 3 + 4"));
    assert_eq!(format!("{:?}", parser.factor().unwrap()), r#"NumberExpr("2")"#);
    assert_eq!(parser.curr().kind, TokenKind::Star);
    let mut parser = Parser::new(lex("2 * 3 + 4"));
    assert_eq!(
        format!("{:?}", parser.term().unwrap()),
        r#"BinaryOperatorExpr(NumberExpr("2"), Multiply, NumberExpr("3"))"#
    );
    assert_eq!(parser.curr().kind, TokenKind::Plus);
    let mut parser = Parser::new(lex("2 * 3 + 4"));
    assert!(parser.expr().is_ok());
    assert_eq!(parser.curr().kind, TokenKind::EOF);
}

#[test]
fn a_tree_can_be_built_by_hand() {
    let expr = Expr::BinaryOperatorExpr(
        Box::new(Expr::NumberExpr(String::from("1"))),
        BinaryOperator::Add,
        Box::new(Expr::NumberExpr(String::from("2"))),
    );
    assert_eq!(format!("{:?}", expr), tree("1 + 2"));
}

#[test]
fn parsing_a_written_out_expression_succeeds() {
    assert!(Parser::new(lex("((1 + 2) * (3 - 4)) / cos(5 % 6) ** 2 - 7")).parse().is_ok());
}
