//! The parser: recursive descent over a token sequence, one token ahead.
//!
//! ```text
//! expr   := term (('+' | '-') term)*
//! term   := factor (('*' | '/' | '**' | '%') factor)*
//! factor := NUMBER | '(' expr ')' | IDENTIFIER '(' expr ')'
//! ```
//!
//! Both tiers associate to the left, and `**` binds no tighter than `*`.
//! Tokens that follow a complete expression are left unread.

use crate::lexer::{token_views, Token, TokenKind, TokenView};
use crate::number::{is_float_literal, is_number};
use vstd::prelude::*;
use vstd::string::*;

verus! {

/// Why an expression could not be parsed or evaluated.
#[derive(Debug)]
pub enum Error {
    /// The text of a number token is not a floating-point literal.
    ParseError,
    /// The token under the cursor is not the one the grammar asks for.
    UnexpectedToken,
    /// A token kind that names no binary operator was asked for one.
    UnexpectedBinaryOperator,
    /// A call names a function that is not built in.
    UnresolvedReference(String),
    /// A rule of the lexer could not be used: its pattern is not valid, or it
    /// recognized the empty text.
    InvalidRule,
}

pub enum ErrorView {
    ParseError,
    UnexpectedToken,
    UnexpectedBinaryOperator,
    UnresolvedReference(Seq<char>),
    InvalidRule,
}

impl View for Error {
    type V = ErrorView;

    open spec fn view(&self) -> ErrorView {
        match self {
            Error::ParseError => ErrorView::ParseError,
            Error::UnexpectedToken => ErrorView::UnexpectedToken,
            Error::UnexpectedBinaryOperator => ErrorView::UnexpectedBinaryOperator,
            Error::UnresolvedReference(name) => ErrorView::UnresolvedReference(name@),
            Error::InvalidRule => ErrorView::InvalidRule,
        }
    }
}

impl ErrorView {
    /// The message that describes the error.
    pub open spec fn message(self) -> Seq<char> {
        match self {
            ErrorView::ParseError => "Parse error"@,
            ErrorView::UnexpectedToken => "Unexpected token"@,
            ErrorView::UnexpectedBinaryOperator => "Unexpected binary operator"@,
            ErrorView::UnresolvedReference(name) => "Unresolved reference: "@ + name,
            ErrorView::InvalidRule => "Invalid rule"@,
        }
    }
}

impl Error {
    /// The message that describes the error.
    pub fn message(&self) -> (text: String)
        ensures
            text@ == self@.message(),
    {
        match self {
            Error::ParseError => String::from_str("Parse error"),
            Error::UnexpectedToken => String::from_str("Unexpected token"),
            Error::UnexpectedBinaryOperator => String::from_str("Unexpected binary operator"),
            Error::UnresolvedReference(name) => String::from_str("Unresolved reference: ").concat(
                name.as_str(),
            ),
            Error::InvalidRule => String::from_str("Invalid rule"),
        }
    }
}

#[derive(Debug, Clone, Copy, PartialEq, Eq, Structural)]
pub enum BinaryOperator {
    Add,
    Subtract,
    Multiply,
    Divide,
    Power,
    Modulo,
}

impl BinaryOperator {
    /// The sign an operator is written with.
    pub open spec fn spec_symbol(self) -> Seq<char> {
        match self {
            BinaryOperator::Add => "+"@,
            BinaryOperator::Subtract => "-"@,
            BinaryOperator::Multiply => "*"@,
            BinaryOperator::Divide => "/"@,
            BinaryOperator::Power => "^"@,
            BinaryOperator::Modulo => "%"@,
        }
    }

    /// The sign an operator is written with.
    pub fn symbol(&self) -> (sign: &'static str)
        ensures
            sign@ == self.spec_symbol(),
    {
        match self {
            BinaryOperator::Add => "+",
            BinaryOperator::Subtract => "-",
            BinaryOperator::Multiply => "*",
            BinaryOperator::Divide => "/",
            BinaryOperator::Power => "^",
            BinaryOperator::Modulo => "%",
        }
    }
}

/// An expression tree. A number is kept as the text of its literal.
#[derive(Debug)]
pub enum Expr {
    NumberExpr(String),
    BinaryOperatorExpr(Box<Expr>, BinaryOperator, Box<Expr>),
    CallExpr(String, Box<Expr>),
}

pub enum ExprView {
    Number(Seq<char>),
    Binary(Box<ExprView>, BinaryOperator, Box<ExprView>),
    Call(Seq<char>, Box<ExprView>),
}

pub open spec fn expr_view(expr: Expr) -> ExprView
    decreases expr,
{
    match expr {
        Expr::NumberExpr(text) => ExprView::Number(text@),
        Expr::BinaryOperatorExpr(left, operator, right) => ExprView::Binary(
            Box::new(expr_view(*left)),
            operator,
            Box::new(expr_view(*right)),
        ),
        Expr::CallExpr(name, argument) => ExprView::Call(name@, Box::new(expr_view(*argument))),
    }
}

impl View for Expr {
    type V = ExprView;

    open spec fn view(&self) -> ExprView {
        expr_view(*self)
    }
}

impl ExprView {
    /// Whether every number in the tree is a floating-point literal.
    pub open spec fn well_formed(self) -> bool
        decreases self,
    {
        match self {
            ExprView::Number(text) => is_float_literal(text),
            ExprView::Binary(left, _, right) => left.well_formed() && right.well_formed(),
            ExprView::Call(_, argument) => argument.well_formed(),
        }
    }
}

/// The token at `pos`, or the end-of-input sentinel past the last token.
pub open spec fn token_at(tokens: Seq<TokenView>, pos: int) -> TokenView {
    if 0 <= pos < tokens.len() {
        tokens[pos]
    } else {
        TokenView { kind: TokenKind::EOF, text: Seq::empty() }
    }
}

/// Whether a token of `kind` stands at `pos`. The sentinel past the last
/// token is no token of the sequence, so nothing holds there.
pub open spec fn holds_at(tokens: Seq<TokenView>, pos: int, kind: TokenKind) -> bool {
    0 <= pos < tokens.len() && tokens[pos].kind == kind
}

/// The binary operator that a token kind stands for.
pub open spec fn binary_operator(kind: TokenKind) -> Option<BinaryOperator> {
    match kind {
        TokenKind::Plus => Some(BinaryOperator::Add),
        TokenKind::Minus => Some(BinaryOperator::Subtract),
        TokenKind::Star => Some(BinaryOperator::Multiply),
        TokenKind::Slash => Some(BinaryOperator::Divide),
        TokenKind::StarStar => Some(BinaryOperator::Power),
        TokenKind::Percent => Some(BinaryOperator::Modulo),
        _ => None,
    }
}

/// The operator of `kind` where it joins terms: `+` and `-`.
pub open spec fn expr_operator(kind: TokenKind) -> Option<BinaryOperator> {
    if kind == TokenKind::Plus || kind == TokenKind::Minus {
        binary_operator(kind)
    } else {
        None
    }
}

/// The operator of `kind` where it joins factors: `*`, `/`, `**` and `%`.
pub open spec fn term_operator(kind: TokenKind) -> Option<BinaryOperator> {
    if kind == TokenKind::Star || kind == TokenKind::Slash || kind == TokenKind::StarStar || kind
        == TokenKind::Percent {
        binary_operator(kind)
    } else {
        None
    }
}

/// The outcome of a production and the cursor it leaves behind.
pub struct Parsed {
    pub result: Result<ExprView, ErrorView>,
    pub cursor: int,
}

/// `factor`, read at `pos`.
pub open spec fn spec_factor(tokens: Seq<TokenView>, pos: int) -> Parsed
    decreases tokens.len() - pos, 0int,
{
    let token = token_at(tokens, pos);
    match token.kind {
        TokenKind::Number => if is_float_literal(token.text) {
            Parsed { result: Ok(ExprView::Number(token.text)), cursor: pos + 1 }
        } else {
            Parsed { result: Err(ErrorView::ParseError), cursor: pos }
        },
        TokenKind::OpenParen => {
            let inner = spec_expr(tokens, pos + 1);
            match inner.result {
                Ok(expr) => if token_at(tokens, inner.cursor).kind == TokenKind::CloseParen {
                    Parsed { result: Ok(expr), cursor: inner.cursor + 1 }
                } else {
                    Parsed { result: Err(ErrorView::UnexpectedToken), cursor: inner.cursor }
                },
                Err(_) => inner,
            }
        },
        TokenKind::Identifier => if token_at(tokens, pos + 1).kind == TokenKind::OpenParen {
            let group = spec_factor(tokens, pos + 1);
            match group.result {
                Ok(argument) => Parsed {
                    result: Ok(ExprView::Call(token.text, Box::new(argument))),
                    cursor: group.cursor,
                },
                Err(_) => group,
            }
        } else {
            Parsed { result: Err(ErrorView::UnexpectedToken), cursor: pos + 1 }
        },
        _ => Parsed { result: Err(ErrorView::UnexpectedToken), cursor: pos },
    }
}

/// The rest of a `term` whose operands so far are gathered in `left`.
///
/// `from` is where the last operand began. An operand holds at least one
/// token, so `from < left.cursor` always holds on the way; it is written out
/// because the recursion descends on it.
pub open spec fn spec_term_tail(tokens: Seq<TokenView>, from: int, left: Parsed) -> Parsed
    decreases tokens.len() - from, 1int,
{
    match (left.result, term_operator(token_at(tokens, left.cursor).kind)) {
        (Ok(node), Some(operator)) => if from < left.cursor {
            let right = spec_factor(tokens, left.cursor + 1);
            match right.result {
                Ok(operand) => spec_term_tail(
                    tokens,
                    left.cursor,
                    Parsed {
                        result: Ok(ExprView::Binary(Box::new(node), operator, Box::new(operand))),
                        cursor: right.cursor,
                    },
                ),
                Err(_) => right,
            }
        } else {
            left
        },
        _ => left,
    }
}

/// `term`, read at `pos`.
pub open spec fn spec_term(tokens: Seq<TokenView>, pos: int) -> Parsed
    decreases tokens.len() - pos, 2int,
{
    spec_term_tail(tokens, pos, spec_factor(tokens, pos))
}

/// The rest of an `expr` whose operands so far are gathered in `left`.
///
/// `from` is where the last operand began, as in [`spec_term_tail`].
pub open spec fn spec_expr_tail(tokens: Seq<TokenView>, from: int, left: Parsed) -> Parsed
    decreases tokens.len() - from, 3int,
{
    match (left.result, expr_operator(token_at(tokens, left.cursor).kind)) {
        (Ok(node), Some(operator)) => if from < left.cursor {
            let right = spec_term(tokens, left.cursor + 1);
            match right.result {
                Ok(operand) => spec_expr_tail(
                    tokens,
                    left.cursor,
                    Parsed {
                        result: Ok(ExprView::Binary(Box::new(node), operator, Box::new(operand))),
                        cursor: right.cursor,
                    },
                ),
                Err(_) => right,
            }
        } else {
            left
        },
        _ => left,
    }
}

/// `expr`, read at `pos`.
pub open spec fn spec_expr(tokens: Seq<TokenView>, pos: int) -> Parsed
    decreases tokens.len() - pos, 4int,
{
    spec_expr_tail(tokens, pos, spec_term(tokens, pos))
}

/// What holds of a production that succeeds from `pos`: it has read at least
/// one token, has stayed inside the sequence, and every number in its tree
/// is a floating-point literal.
pub open spec fn advances(tokens: Seq<TokenView>, pos: int, parsed: Parsed) -> bool {
    parsed.result matches Ok(expr) ==> pos < parsed.cursor <= tokens.len() && expr.well_formed()
}

pub proof fn lemma_factor_advances(tokens: Seq<TokenView>, pos: int)
    ensures
        advances(tokens, pos, spec_factor(tokens, pos)),
    decreases tokens.len() - pos, 0int,
{
    let token = token_at(tokens, pos);
    if token.kind == TokenKind::OpenParen {
        lemma_expr_advances(tokens, pos + 1);
    } else if token.kind == TokenKind::Identifier && token_at(tokens, pos + 1).kind
        == TokenKind::OpenParen {
        lemma_factor_advances(tokens, pos + 1);
    }
}

pub proof fn lemma_term_tail_advances(tokens: Seq<TokenView>, from: int, left: Parsed)
    requires
        advances(tokens, from, left),
    ensures
        advances(tokens, from, spec_term_tail(tokens, from, left)),
    decreases tokens.len() - from, 1int,
{
    match (left.result, term_operator(token_at(tokens, left.cursor).kind)) {
        (Ok(node), Some(operator)) => {
            let right = spec_factor(tokens, left.cursor + 1);
            lemma_factor_advances(tokens, left.cursor + 1);
            if let Ok(operand) = right.result {
                lemma_term_tail_advances(
                    tokens,
                    left.cursor,
                    Parsed {
                        result: Ok(ExprView::Binary(Box::new(node), operator, Box::new(operand))),
                        cursor: right.cursor,
                    },
                );
            }
        },
        _ => {},
    }
}

pub proof fn lemma_term_advances(tokens: Seq<TokenView>, pos: int)
    ensures
        advances(tokens, pos, spec_term(tokens, pos)),
    decreases tokens.len() - pos, 2int,
{
    lemma_factor_advances(tokens, pos);
    lemma_term_tail_advances(tokens, pos, spec_factor(tokens, pos));
}

pub proof fn lemma_expr_tail_advances(tokens: Seq<TokenView>, from: int, left: Parsed)
    requires
        advances(tokens, from, left),
    ensures
        advances(tokens, from, spec_expr_tail(tokens, from, left)),
    decreases tokens.len() - from, 3int,
{
    match (left.result, expr_operator(token_at(tokens, left.cursor).kind)) {
        (Ok(node), Some(operator)) => {
            let right = spec_term(tokens, left.cursor + 1);
            lemma_term_advances(tokens, left.cursor + 1);
            if let Ok(operand) = right.result {
                lemma_expr_tail_advances(
                    tokens,
                    left.cursor,
                    Parsed {
                        result: Ok(ExprView::Binary(Box::new(node), operator, Box::new(operand))),
                        cursor: right.cursor,
                    },
                );
            }
        },
        _ => {},
    }
}

pub proof fn lemma_expr_advances(tokens: Seq<TokenView>, pos: int)
    ensures
        advances(tokens, pos, spec_expr(tokens, pos)),
    decreases tokens.len() - pos, 4int,
{
    lemma_term_advances(tokens, pos);
    lemma_expr_tail_advances(tokens, pos, spec_term(tokens, pos));
}

/// What a production of the parser returned, over views.
pub open spec fn parsed(result: Result<Expr, Error>, cursor: int) -> Parsed {
    Parsed {
        result: match result {
            Ok(expr) => Ok(expr@),
            Err(error) => Err(error@),
        },
        cursor,
    }
}

/// A cursor over a token sequence.
pub struct Parser<'a> {
    cursor: usize,
    tokens: Vec<Token<'a>>,
}

pub struct ParserView {
    pub tokens: Seq<TokenView>,
    pub cursor: int,
}

impl<'a> View for Parser<'a> {
    type V = ParserView;

    closed spec fn view(&self) -> ParserView {
        ParserView { tokens: token_views(self.tokens@), cursor: self.cursor as int }
    }
}

impl<'a> Parser<'a> {
    pub fn get_binary_operator(kind: TokenKind) -> (result: Result<BinaryOperator, Error>)
        ensures
            match binary_operator(kind) {
                Some(operator) => result == Ok::<BinaryOperator, Error>(operator),
                None => result is Err && result->Err_0@ == ErrorView::UnexpectedBinaryOperator,
            },
    {
        match kind {
            TokenKind::Plus => Ok(BinaryOperator::Add),
            TokenKind::Minus => Ok(BinaryOperator::Subtract),
            TokenKind::Star => Ok(BinaryOperator::Multiply),
            TokenKind::Slash => Ok(BinaryOperator::Divide),
            TokenKind::StarStar => Ok(BinaryOperator::Power),
            TokenKind::Percent => Ok(BinaryOperator::Modulo),
            _ => Err(Error::UnexpectedBinaryOperator),
        }
    }

    pub fn new(tokens: Vec<Token<'a>>) -> (parser: Self)
        ensures
            parser@.tokens == token_views(tokens@),
            parser@.cursor == 0,
    {
        Self { cursor: 0, tokens }
    }

    /// Moves past the token under the cursor where it is of the expected kind.
    ///
    /// Only a token of the sequence can be eaten: past the last token nothing
    /// is of the expected kind, whatever kind is asked for.
    pub fn eat(&mut self, kind: TokenKind) -> (result: Result<(), Error>)
        ensures
            final(self)@.tokens == old(self)@.tokens,
            holds_at(old(self)@.tokens, old(self)@.cursor, kind) ==> result is Ok
                && final(self)@.cursor == old(self)@.cursor + 1,
            !holds_at(old(self)@.tokens, old(self)@.cursor, kind) ==> result is Err
                && result->Err_0@ == ErrorView::UnexpectedToken
                && final(self)@.cursor == old(self)@.cursor,
    {
        if self.cursor < self.tokens.len() && self.tokens[self.cursor].kind == kind {
            self.cursor += 1;
            Ok(())
        } else {
            Err(Error::UnexpectedToken)
        }
    }

    /// The token under the cursor, or the end-of-input sentinel.
    pub fn curr(&self) -> (token: Token<'a>)
        ensures
            token@ == token_at(self@.tokens, self@.cursor),
    {
        if self.cursor >= self.tokens.len() {
            proof {
                reveal_strlit("");
                assert(""@ =~= Seq::<char>::empty());
            }
            return Token::new(TokenKind::EOF, "");
        }
        self.tokens[self.cursor]
    }

    pub fn factor(&mut self) -> (result: Result<Expr, Error>)
        ensures
            final(self)@.tokens == old(self)@.tokens,
            parsed(result, final(self)@.cursor) == spec_factor(old(self)@.tokens, old(self)@.cursor),
        decreases old(self)@.tokens.len() - old(self)@.cursor, 0int,
    {
        let curr = self.curr();
        match curr.kind {
            TokenKind::Number => {
                if !is_number(curr.slice) {
                    return Err(Error::ParseError);
                }
                match self.eat(TokenKind::Number) {
                    Ok(()) => Ok(Expr::NumberExpr(String::from_str(curr.slice))),
                    Err(error) => Err(error),
                }
            },
            TokenKind::OpenParen => {
                match self.eat(TokenKind::OpenParen) {
                    Ok(()) => {},
                    Err(error) => {
                        return Err(error);
                    },
                }
                let expr = match self.expr() {
                    Ok(expr) => expr,
                    Err(error) => {
                        return Err(error);
                    },
                };
                match self.eat(TokenKind::CloseParen) {
                    Ok(()) => Ok(expr),
                    Err(error) => Err(error),
                }
            },
            TokenKind::Identifier => {
                match self.eat(TokenKind::Identifier) {
                    Ok(()) => {},
                    Err(error) => {
                        return Err(error);
                    },
                }
                if self.curr().kind != TokenKind::OpenParen {
                    return Err(Error::UnexpectedToken);
                }
                match self.factor() {
                    Ok(argument) => Ok(
                        Expr::CallExpr(String::from_str(curr.slice), Box::new(argument)),
                    ),
                    Err(error) => Err(error),
                }
            },
            _ => Err(Error::UnexpectedToken),
        }
    }

    pub fn term(&mut self) -> (result: Result<Expr, Error>)
        ensures
            final(self)@.tokens == old(self)@.tokens,
            parsed(result, final(self)@.cursor) == spec_term(old(self)@.tokens, old(self)@.cursor),
        decreases old(self)@.tokens.len() - old(self)@.cursor, 2int,
    {
        let ghost tokens = self@.tokens;
        let ghost start = self@.cursor;
        let ghost mut from = start;
        let mut node = match self.factor() {
            Ok(node) => node,
            Err(error) => {
                return Err(error);
            },
        };
        proof {
            lemma_factor_advances(tokens, start);
        }
        loop
            invariant
                tokens == old(self)@.tokens,
                start == old(self)@.cursor,
                self@.tokens == tokens,
                start <= from < self@.cursor <= tokens.len(),
                node@.well_formed(),
                spec_term(tokens, start) == spec_term_tail(
                    tokens,
                    from,
                    Parsed { result: Ok(node@), cursor: self@.cursor },
                ),
            ensures
                self@.tokens == tokens,
                spec_term(tokens, start) == (Parsed { result: Ok(node@), cursor: self@.cursor }),
            decreases tokens.len() - self@.cursor,
        {
            let token = self.curr();
            if !(token.kind == TokenKind::Star || token.kind == TokenKind::Slash || token.kind
                == TokenKind::StarStar || token.kind == TokenKind::Percent) {
                break ;
            }
            let ghost at = self@.cursor;
            match self.eat(token.kind) {
                Ok(()) => {},
                Err(error) => {
                    return Err(error);
                },
            }
            let operator = match Parser::get_binary_operator(token.kind) {
                Ok(operator) => operator,
                Err(error) => {
                    return Err(error);
                },
            };
            let right = match self.factor() {
                Ok(right) => right,
                Err(error) => {
                    return Err(error);
                },
            };
            proof {
                lemma_factor_advances(tokens, at + 1);
                from = at;
            }
            node = Expr::BinaryOperatorExpr(Box::new(node), operator, Box::new(right));
        }
        Ok(node)
    }

    pub fn expr(&mut self) -> (result: Result<Expr, Error>)
        ensures
            final(self)@.tokens == old(self)@.tokens,
            parsed(result, final(self)@.cursor) == spec_expr(old(self)@.tokens, old(self)@.cursor),
        decreases old(self)@.tokens.len() - old(self)@.cursor, 4int,
    {
        let ghost tokens = self@.tokens;
        let ghost start = self@.cursor;
        let ghost mut from = start;
        let mut node = match self.term() {
            Ok(node) => node,
            Err(error) => {
                return Err(error);
            },
        };
        proof {
            lemma_term_advances(tokens, start);
        }
        loop
            invariant
                tokens == old(self)@.tokens,
                start == old(self)@.cursor,
                self@.tokens == tokens,
                start <= from < self@.cursor <= tokens.len(),
                node@.well_formed(),
                spec_expr(tokens, start) == spec_expr_tail(
                    tokens,
                    from,
                    Parsed { result: Ok(node@), cursor: self@.cursor },
                ),
            ensures
                self@.tokens == tokens,
                spec_expr(tokens, start) == (Parsed { result: Ok(node@), cursor: self@.cursor }),
            decreases tokens.len() - self@.cursor,
        {
            let token = self.curr();
            if !(token.kind == TokenKind::Plus || token.kind == TokenKind::Minus) {
                break ;
            }
            let ghost at = self@.cursor;
            match self.eat(token.kind) {
                Ok(()) => {},
                Err(error) => {
                    return Err(error);
                },
            }
            let operator = match Parser::get_binary_operator(token.kind) {
                Ok(operator) => operator,
                Err(error) => {
                    return Err(error);
                },
            };
            let right = match self.term() {
                Ok(right) => right,
                Err(error) => {
                    return Err(error);
                },
            };
            proof {
                lemma_term_advances(tokens, at + 1);
                from = at;
            }
            node = Expr::BinaryOperatorExpr(Box::new(node), operator, Box::new(right));
        }
        Ok(node)
    }

    /// Parses one expression from the cursor on. Tokens behind it stay unread.
    pub fn parse(&mut self) -> (result: Result<Expr, Error>)
        ensures
            final(self)@.tokens == old(self)@.tokens,
            parsed(result, final(self)@.cursor) == spec_expr(old(self)@.tokens, old(self)@.cursor),
            result matches Ok(expr) ==> expr@.well_formed(),
            result is Ok ==> old(self)@.cursor < final(self)@.cursor <= old(self)@.tokens.len(),
    {
        proof {
            lemma_expr_advances(self@.tokens, self@.cursor);
        }
        self.expr()
    }
}

} // verus!
