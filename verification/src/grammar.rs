//! The grammar as derivations, and the parser's completeness for it.
//!
//! A [`Syntax`] is a derivation of the grammar that the parser reads. Its
//! yield is the token sequence it derives; its tree is the expression it
//! stands for. Every derivation's yield parses to the derivation's tree.

use crate::lexer::{TokenKind, TokenView};
use crate::number::is_float_literal;
use crate::parser::{
    expr_operator, spec_expr, spec_expr_tail, spec_factor, spec_term, spec_term_tail,
    term_operator, token_at, binary_operator, BinaryOperator, ExprView, Parsed,
};
use vstd::prelude::*;

verus! {

/// A derivation of the grammar.
pub enum Syntax {
    /// A number, by the text of its literal.
    Number(Seq<char>),
    /// An expression in parentheses.
    Group(Box<Syntax>),
    /// A function name and its argument in parentheses.
    Call(Seq<char>, Box<Syntax>),
    /// Two operands around an operator.
    Binary(Box<Syntax>, BinaryOperator, Box<Syntax>),
}

/// Whether `operator` joins factors.
pub open spec fn joins_factors(operator: BinaryOperator) -> bool {
    operator == BinaryOperator::Multiply || operator == BinaryOperator::Divide || operator
        == BinaryOperator::Power || operator == BinaryOperator::Modulo
}

/// The token an operator is written as.
pub open spec fn operator_token(operator: BinaryOperator) -> TokenView {
    match operator {
        BinaryOperator::Add => TokenView { kind: TokenKind::Plus, text: "+"@ },
        BinaryOperator::Subtract => TokenView { kind: TokenKind::Minus, text: "-"@ },
        BinaryOperator::Multiply => TokenView { kind: TokenKind::Star, text: "*"@ },
        BinaryOperator::Divide => TokenView { kind: TokenKind::Slash, text: "/"@ },
        BinaryOperator::Power => TokenView { kind: TokenKind::StarStar, text: "**"@ },
        BinaryOperator::Modulo => TokenView { kind: TokenKind::Percent, text: "%"@ },
    }
}

pub open spec fn open_paren() -> TokenView {
    TokenView { kind: TokenKind::OpenParen, text: "("@ }
}

pub open spec fn close_paren() -> TokenView {
    TokenView { kind: TokenKind::CloseParen, text: ")"@ }
}

impl Syntax {
    /// `factor := NUMBER | '(' expr ')' | IDENTIFIER '(' expr ')'`
    pub open spec fn is_factor(self) -> bool
        decreases self, 0int,
    {
        match self {
            Syntax::Number(text) => is_float_literal(text),
            Syntax::Group(inner) => inner.is_expr(),
            Syntax::Call(_, argument) => argument.is_expr(),
            Syntax::Binary(_, _, _) => false,
        }
    }

    /// `term := factor (('*' | '/' | '**' | '%') factor)*`
    pub open spec fn is_term(self) -> bool
        decreases self, 1int,
    {
        match self {
            Syntax::Binary(left, operator, right) => joins_factors(operator) && left.is_term()
                && right.is_factor(),
            _ => self.is_factor(),
        }
    }

    /// `expr := term (('+' | '-') term)*`
    pub open spec fn is_expr(self) -> bool
        decreases self, 2int,
    {
        match self {
            Syntax::Binary(left, operator, right) => if joins_factors(operator) {
                self.is_term()
            } else {
                left.is_expr() && right.is_term()
            },
            _ => self.is_term(),
        }
    }

    /// The tokens that the derivation derives, in order.
    pub open spec fn tokens(self) -> Seq<TokenView>
        decreases self,
    {
        match self {
            Syntax::Number(text) => seq![TokenView { kind: TokenKind::Number, text }],
            Syntax::Group(inner) => seq![open_paren()] + inner.tokens() + seq![close_paren()],
            Syntax::Call(name, argument) => seq![
                TokenView { kind: TokenKind::Identifier, text: name },
                open_paren(),
            ] + argument.tokens() + seq![close_paren()],
            Syntax::Binary(left, operator, right) => left.tokens() + seq![
                operator_token(operator),
            ] + right.tokens(),
        }
    }

    /// The expression tree that the derivation stands for.
    pub open spec fn tree(self) -> ExprView
        decreases self,
    {
        match self {
            Syntax::Number(text) => ExprView::Number(text),
            Syntax::Group(inner) => inner.tree(),
            Syntax::Call(name, argument) => ExprView::Call(name, Box::new(argument.tree())),
            Syntax::Binary(left, operator, right) => ExprView::Binary(
                Box::new(left.tree()),
                operator,
                Box::new(right.tree()),
            ),
        }
    }
}

/// Whether `part` stands in `tokens` from `pos` on.
pub open spec fn occurs(tokens: Seq<TokenView>, pos: int, part: Seq<TokenView>) -> bool {
    &&& 0 <= pos
    &&& pos + part.len() <= tokens.len()
    &&& forall|i: int| 0 <= i < part.len() ==> tokens[pos + i] == #[trigger] part[i]
}

proof fn lemma_occurs_split(
    tokens: Seq<TokenView>,
    pos: int,
    first: Seq<TokenView>,
    second: Seq<TokenView>,
)
    requires
        occurs(tokens, pos, first + second),
    ensures
        occurs(tokens, pos, first),
        occurs(tokens, pos + first.len(), second),
{
    let whole = first + second;
    assert forall|i: int| 0 <= i < first.len() implies tokens[pos + i] == #[trigger] first[i] by {
        assert(whole[i] == first[i]);
    }
    assert forall|i: int| 0 <= i < second.len() implies tokens[pos + first.len() + i]
        == #[trigger] second[i] by {
        assert(whole[first.len() + i] == second[i]);
    }
}

proof fn lemma_occurs_one(tokens: Seq<TokenView>, pos: int, token: TokenView)
    requires
        occurs(tokens, pos, seq![token]),
    ensures
        token_at(tokens, pos) == token,
{
    assert(seq![token][0] == token);
}

/// A derivation derives at least one token.
pub proof fn lemma_tokens_nonempty(syntax: Syntax)
    ensures
        syntax.tokens().len() > 0,
    decreases syntax,
{
    match syntax {
        Syntax::Binary(left, _, _) => {
            lemma_tokens_nonempty(*left);
        },
        _ => {},
    }
}

/// Where the last operand of a term began does not matter, as long as it
/// lies before the cursor.
proof fn lemma_term_tail_from(tokens: Seq<TokenView>, a: int, b: int, left: Parsed)
    requires
        a < left.cursor,
        b < left.cursor,
    ensures
        spec_term_tail(tokens, a, left) == spec_term_tail(tokens, b, left),
{
}

proof fn lemma_expr_tail_from(tokens: Seq<TokenView>, a: int, b: int, left: Parsed)
    requires
        a < left.cursor,
        b < left.cursor,
    ensures
        spec_expr_tail(tokens, a, left) == spec_expr_tail(tokens, b, left),
{
}

proof fn lemma_factor_reads(syntax: Syntax, tokens: Seq<TokenView>, pos: int)
    requires
        syntax.is_factor(),
        occurs(tokens, pos, syntax.tokens()),
    ensures
        spec_factor(tokens, pos) == (Parsed {
            result: Ok(syntax.tree()),
            cursor: pos + syntax.tokens().len(),
        }),
    decreases syntax, 0int,
{
    match syntax {
        Syntax::Number(text) => {
            lemma_occurs_one(tokens, pos, TokenView { kind: TokenKind::Number, text });
        },
        Syntax::Group(inner) => {
            lemma_group_reads(*inner, tokens, pos);
        },
        Syntax::Call(name, argument) => {
            let head = seq![TokenView { kind: TokenKind::Identifier, text: name }];
            let group = seq![open_paren()] + argument.tokens() + seq![close_paren()];
            assert(syntax.tokens() =~= head + group);
            lemma_occurs_split(tokens, pos, head, group);
            lemma_occurs_one(tokens, pos, head[0]);
            lemma_group_reads(*argument, tokens, pos + 1);
            lemma_occurs_split(
                tokens,
                pos + 1,
                seq![open_paren()] + argument.tokens(),
                seq![close_paren()],
            );
            lemma_occurs_split(tokens, pos + 1, seq![open_paren()], argument.tokens());
            lemma_occurs_one(tokens, pos + 1, open_paren());
        },
        Syntax::Binary(_, _, _) => {},
    }
}

/// An expression in parentheses, read as a factor.
proof fn lemma_group_reads(inner: Syntax, tokens: Seq<TokenView>, pos: int)
    requires
        inner.is_expr(),
        occurs(tokens, pos, seq![open_paren()] + inner.tokens() + seq![close_paren()]),
    ensures
        spec_factor(tokens, pos) == (Parsed {
            result: Ok(inner.tree()),
            cursor: pos + inner.tokens().len() + 2,
        }),
    decreases inner, 4int,
{
    let open = seq![open_paren()];
    let close = seq![close_paren()];
    lemma_occurs_split(tokens, pos, open + inner.tokens(), close);
    lemma_occurs_split(tokens, pos, open, inner.tokens());
    lemma_occurs_one(tokens, pos, open_paren());
    lemma_occurs_one(tokens, pos + 1 + inner.tokens().len(), close_paren());
    lemma_expr_reads(inner, tokens, pos + 1);
}

proof fn lemma_term_reads(syntax: Syntax, tokens: Seq<TokenView>, pos: int)
    requires
        syntax.is_term(),
        occurs(tokens, pos, syntax.tokens()),
    ensures
        spec_term(tokens, pos) == spec_term_tail(
            tokens,
            pos,
            Parsed { result: Ok(syntax.tree()), cursor: pos + syntax.tokens().len() },
        ),
    decreases syntax, 1int,
{
    match syntax {
        Syntax::Binary(left, operator, right) => {
            let sign = seq![operator_token(operator)];
            lemma_occurs_split(tokens, pos, left.tokens() + sign, right.tokens());
            lemma_occurs_split(tokens, pos, left.tokens(), sign);
            let mid = pos + left.tokens().len();
            lemma_occurs_one(tokens, mid, operator_token(operator));
            lemma_tokens_nonempty(*left);
            lemma_tokens_nonempty(*right);
            lemma_term_reads(*left, tokens, pos);
            lemma_factor_reads(*right, tokens, mid + 1);
            let joined = Parsed {
                result: Ok(syntax.tree()),
                cursor: pos + syntax.tokens().len(),
            };
            assert(term_operator(token_at(tokens, mid).kind) == Some(operator));
            assert(spec_term_tail(tokens, pos, Parsed { result: Ok(left.tree()), cursor: mid })
                == spec_term_tail(tokens, mid, joined));
            lemma_term_tail_from(tokens, mid, pos, joined);
        },
        _ => {
            lemma_factor_reads(syntax, tokens, pos);
        },
    }
}

proof fn lemma_expr_prefix_reads(syntax: Syntax, tokens: Seq<TokenView>, pos: int)
    requires
        syntax.is_expr(),
        occurs(tokens, pos, syntax.tokens()),
        term_operator(token_at(tokens, pos + syntax.tokens().len()).kind) is None,
    ensures
        spec_expr(tokens, pos) == spec_expr_tail(
            tokens,
            pos,
            Parsed { result: Ok(syntax.tree()), cursor: pos + syntax.tokens().len() },
        ),
    decreases syntax, 2int,
{
    if syntax.is_term() {
        lemma_term_reads(syntax, tokens, pos);
    } else {
        match syntax {
            Syntax::Binary(left, operator, right) => {
                let sign = seq![operator_token(operator)];
                lemma_occurs_split(tokens, pos, left.tokens() + sign, right.tokens());
                lemma_occurs_split(tokens, pos, left.tokens(), sign);
                let mid = pos + left.tokens().len();
                lemma_occurs_one(tokens, mid, operator_token(operator));
                lemma_tokens_nonempty(*left);
                lemma_tokens_nonempty(*right);
                lemma_expr_prefix_reads(*left, tokens, pos);
                lemma_term_reads(*right, tokens, mid + 1);
                let joined = Parsed {
                    result: Ok(syntax.tree()),
                    cursor: pos + syntax.tokens().len(),
                };
                assert(expr_operator(token_at(tokens, mid).kind) == Some(operator));
                assert(spec_term(tokens, mid + 1) == (Parsed {
                    result: Ok(right.tree()),
                    cursor: joined.cursor,
                }));
                assert(spec_expr_tail(
                    tokens,
                    pos,
                    Parsed { result: Ok(left.tree()), cursor: mid },
                ) == spec_expr_tail(tokens, mid, joined));
                lemma_expr_tail_from(tokens, mid, pos, joined);
            },
            _ => {},
        }
    }
}

proof fn lemma_expr_reads(syntax: Syntax, tokens: Seq<TokenView>, pos: int)
    requires
        syntax.is_expr(),
        occurs(tokens, pos, syntax.tokens()),
        binary_operator(token_at(tokens, pos + syntax.tokens().len()).kind) is None,
    ensures
        spec_expr(tokens, pos) == (Parsed {
            result: Ok(syntax.tree()),
            cursor: pos + syntax.tokens().len(),
        }),
    decreases syntax, 3int,
{
    lemma_expr_prefix_reads(syntax, tokens, pos);
}

/// The parser is complete: the tokens of any derivation of `expr` parse, the
/// result is the derivation's tree, and the cursor ends right behind them.
/// Tokens may follow, as long as the first of them is no binary operator.
pub proof fn lemma_parser_reads_every_expression(syntax: Syntax, rest: Seq<TokenView>)
    requires
        syntax.is_expr(),
        binary_operator(token_at(rest, 0).kind) is None,
    ensures
        spec_expr(syntax.tokens() + rest, 0) == (Parsed {
            result: Ok(syntax.tree()),
            cursor: syntax.tokens().len() as int,
        }),
{
    let tokens = syntax.tokens() + rest;
    let end = syntax.tokens().len() as int;
    assert(token_at(tokens, end) == token_at(rest, 0)) by {
        if rest.len() > 0 {
            assert(tokens[end] == rest[0]);
        }
    }
    lemma_expr_reads(syntax, tokens, 0);
}

} // verus!
