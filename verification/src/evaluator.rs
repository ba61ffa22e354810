//! The evaluator: a post-order walk that lowers an expression tree to a
//! postfix program for a stack machine.
//!
//! The program names every arithmetic step in the order of evaluation: the
//! left operand before the right one, an argument before its function.
//! Carrying the steps out on numbers is left to the caller.

use crate::lexer::{compile, compiled, lex, Lexer, Rule, TokenKind};
use crate::number::is_float_literal;
use crate::parser::{
    lemma_expr_advances, spec_expr, BinaryOperator, Error, ErrorView, Expr, ExprView, Parser,
};
use crate::text::same;
use regex::Regex;
use vstd::prelude::*;
use vstd::string::*;

verus! {

/// The pattern of a number: an optional minus sign, digits, and an optional
/// decimal point with or without digits after it.
pub const NUMBER_PATTERN: &'static str = "-?[0-9]+\\.?[0-9]*";

/// The pattern of a function name.
pub const IDENTIFIER_PATTERN: &'static str = "[a-zA-Z_]+[a-zA-Z0-9_]*";

/// A built-in function of one argument.
#[derive(Debug, Clone, Copy, PartialEq, Eq, Structural)]
pub enum Function {
    Sin,
    Cos,
}

/// One step of a postfix program.
#[derive(Debug)]
pub enum Instruction {
    /// Push the number that the literal spells.
    Push(String),
    /// Pop the right operand, then the left one; push the operator's result.
    Apply(BinaryOperator),
    /// Pop the argument; push the function's result.
    Invoke(Function),
}

pub enum InstructionView {
    Push(Seq<char>),
    Apply(BinaryOperator),
    Invoke(Function),
}

impl View for Instruction {
    type V = InstructionView;

    open spec fn view(&self) -> InstructionView {
        match self {
            Instruction::Push(text) => InstructionView::Push(text@),
            Instruction::Apply(operator) => InstructionView::Apply(*operator),
            Instruction::Invoke(function) => InstructionView::Invoke(*function),
        }
    }
}

/// The views of a program's steps, in order.
pub open spec fn program_view(program: Seq<Instruction>) -> Seq<InstructionView> {
    program.map_values(|instruction: Instruction| instruction@)
}

/// The built-in function that `name` names.
pub open spec fn builtin(name: Seq<char>) -> Option<Function> {
    if name == "sin"@ {
        Some(Function::Sin)
    } else if name == "cos"@ {
        Some(Function::Cos)
    } else {
        None
    }
}

/// The postfix program of `expr`, or the first name, in the order of
/// evaluation, that names no built-in function.
pub open spec fn plan(expr: ExprView) -> Result<Seq<InstructionView>, ErrorView>
    decreases expr,
{
    match expr {
        ExprView::Number(text) => Ok(seq![InstructionView::Push(text)]),
        ExprView::Binary(left, operator, right) => match plan(*left) {
            Ok(first) => match plan(*right) {
                Ok(second) => Ok(first + second + seq![InstructionView::Apply(operator)]),
                Err(error) => Err(error),
            },
            Err(error) => Err(error),
        },
        ExprView::Call(name, argument) => match plan(*argument) {
            Ok(first) => match builtin(name) {
                Some(function) => Ok(first + seq![InstructionView::Invoke(function)]),
                None => Err(ErrorView::UnresolvedReference(name)),
            },
            Err(error) => Err(error),
        },
    }
}

/// What the steps of a program mean on values of type `V`: the number that a
/// literal spells, the result of an operator, the result of a function.
#[verifier::reject_recursive_types(V)]
pub struct Arithmetic<V> {
    pub number: spec_fn(Seq<char>) -> V,
    pub binary: spec_fn(BinaryOperator, V, V) -> V,
    pub call: spec_fn(Function, V) -> V,
}

/// The value of `expr` under `arithmetic`, operands before operators.
pub open spec fn value<V>(expr: ExprView, arithmetic: Arithmetic<V>) -> V
    decreases expr,
{
    match expr {
        ExprView::Number(text) => (arithmetic.number)(text),
        ExprView::Binary(left, operator, right) => (arithmetic.binary)(
            operator,
            value(*left, arithmetic),
            value(*right, arithmetic),
        ),
        ExprView::Call(name, argument) => (arithmetic.call)(
            builtin(name).unwrap(),
            value(*argument, arithmetic),
        ),
    }
}

/// The stack after one step, or `None` where the stack holds too few values.
pub open spec fn step<V>(
    instruction: InstructionView,
    stack: Seq<V>,
    arithmetic: Arithmetic<V>,
) -> Option<Seq<V>> {
    match instruction {
        InstructionView::Push(text) => Some(stack.push((arithmetic.number)(text))),
        InstructionView::Apply(operator) => if stack.len() >= 2 {
            Some(
                stack.drop_last().drop_last().push(
                    (arithmetic.binary)(operator, stack[stack.len() - 2], stack[stack.len() - 1]),
                ),
            )
        } else {
            None
        },
        InstructionView::Invoke(function) => if stack.len() >= 1 {
            Some(stack.drop_last().push((arithmetic.call)(function, stack[stack.len() - 1])))
        } else {
            None
        },
    }
}

/// The stack after all steps of `program`, first to last, or `None` where a
/// step finds too few values on the stack.
pub open spec fn run<V>(
    program: Seq<InstructionView>,
    stack: Seq<V>,
    arithmetic: Arithmetic<V>,
) -> Option<Seq<V>>
    decreases program.len(),
{
    if program.len() == 0 {
        Some(stack)
    } else {
        match step(program[0], stack, arithmetic) {
            Some(next) => run(program.drop_first(), next, arithmetic),
            None => None,
        }
    }
}

/// Running two programs in a row is running the first, then the second.
pub proof fn lemma_run_concat<V>(
    first: Seq<InstructionView>,
    second: Seq<InstructionView>,
    stack: Seq<V>,
    arithmetic: Arithmetic<V>,
)
    ensures
        run(first + second, stack, arithmetic) == match run(first, stack, arithmetic) {
            Some(between) => run(second, between, arithmetic),
            None => None,
        },
    decreases first.len(),
{
    if first.len() == 0 {
        assert(first + second =~= second);
    } else {
        assert((first + second).drop_first() =~= first.drop_first() + second);
        match step(first[0], stack, arithmetic) {
            Some(next) => {
                lemma_run_concat(first.drop_first(), second, next, arithmetic);
            },
            None => {},
        }
    }
}

/// The program of a tree computes the tree's value: run on any stack, it
/// never finds the stack short, and leaves that stack with the value of the
/// tree on top.
pub proof fn lemma_program_computes_value<V>(
    expr: ExprView,
    stack: Seq<V>,
    arithmetic: Arithmetic<V>,
)
    requires
        plan(expr) is Ok,
    ensures
        run(plan(expr)->Ok_0, stack, arithmetic) == Some(stack.push(value(expr, arithmetic))),
    decreases expr,
{
    reveal_with_fuel(run, 2);
    match expr {
        ExprView::Number(text) => {
            assert(seq![InstructionView::Push(text)].drop_first() =~= Seq::empty());
        },
        ExprView::Binary(left, operator, right) => {
            let first = plan(*left)->Ok_0;
            let second = plan(*right)->Ok_0;
            let last = seq![InstructionView::Apply(operator)];
            lemma_program_computes_value(*left, stack, arithmetic);
            let one = stack.push(value(*left, arithmetic));
            lemma_program_computes_value(*right, one, arithmetic);
            let two = one.push(value(*right, arithmetic));
            lemma_run_concat(first, second, stack, arithmetic);
            lemma_run_concat(first + second, last, stack, arithmetic);
            assert(last.drop_first() =~= Seq::empty());
            assert(two.drop_last().drop_last() =~= stack);
        },
        ExprView::Call(name, argument) => {
            let first = plan(*argument)->Ok_0;
            let last = seq![InstructionView::Invoke(builtin(name).unwrap())];
            lemma_program_computes_value(*argument, stack, arithmetic);
            let one = stack.push(value(*argument, arithmetic));
            lemma_run_concat(first, last, stack, arithmetic);
            assert(last.drop_first() =~= Seq::empty());
            assert(one.drop_last() =~= stack);
        },
    }
}

/// Whether every literal that `program` pushes is a floating-point literal.
pub open spec fn pushes_literals(program: Seq<InstructionView>) -> bool {
    forall|i: int|
        0 <= i < program.len() ==> (#[trigger] program[i] matches InstructionView::Push(text)
            ==> is_float_literal(text))
}

/// The program of a well-formed tree pushes floating-point literals only.
pub proof fn lemma_program_pushes_literals(expr: ExprView)
    requires
        expr.well_formed(),
        plan(expr) is Ok,
    ensures
        pushes_literals(plan(expr)->Ok_0),
    decreases expr,
{
    match expr {
        ExprView::Number(_) => {},
        ExprView::Binary(left, _, right) => {
            lemma_program_pushes_literals(*left);
            lemma_program_pushes_literals(*right);
        },
        ExprView::Call(_, argument) => {
            lemma_program_pushes_literals(*argument);
        },
    }
}

/// The rule list of the expression language, around the two compiled
/// patterns. `**` stands before `*`, so that a power sign is never read as
/// two multiplication signs.
pub open spec fn standard_rules(number: Regex, identifier: Regex) -> Seq<Rule<'static>> {
    seq![
        Rule { kind: TokenKind::Number, regex: Some(number), keyword: None },
        Rule { kind: TokenKind::Identifier, regex: Some(identifier), keyword: None },
        Rule { kind: TokenKind::Plus, regex: None, keyword: Some("+") },
        Rule { kind: TokenKind::Minus, regex: None, keyword: Some("-") },
        Rule { kind: TokenKind::StarStar, regex: None, keyword: Some("**") },
        Rule { kind: TokenKind::Star, regex: None, keyword: Some("*") },
        Rule { kind: TokenKind::Slash, regex: None, keyword: Some("/") },
        Rule { kind: TokenKind::Percent, regex: None, keyword: Some("%") },
        Rule { kind: TokenKind::OpenParen, regex: None, keyword: Some("(") },
        Rule { kind: TokenKind::CloseParen, regex: None, keyword: Some(")") },
    ]
}

/// What `source` evaluates to under the rule list around `number` and
/// `identifier`: text to tokens, tokens to a tree, the tree to its program;
/// the first error on the way ends it. A pattern that is missing, or a rule
/// that yields an empty token, is an invalid rule.
pub open spec fn spec_evaluate_with(
    number: Option<Regex>,
    identifier: Option<Regex>,
    source: Seq<char>,
) -> Result<Seq<InstructionView>, ErrorView> {
    match (number, identifier) {
        (Some(number), Some(identifier)) => match lex(standard_rules(number, identifier), source) {
            Some(tokens) => match spec_expr(tokens, 0).result {
                Ok(expr) => plan(expr),
                Err(error) => Err(error),
            },
            None => Err(ErrorView::InvalidRule),
        },
        _ => Err(ErrorView::InvalidRule),
    }
}

/// What `source` evaluates to under the rules of the expression language.
pub open spec fn spec_evaluate(source: Seq<char>) -> Result<Seq<InstructionView>, ErrorView> {
    spec_evaluate_with(compiled(NUMBER_PATTERN@), compiled(IDENTIFIER_PATTERN@), source)
}

/// What an evaluation returned, over views.
pub open spec fn outcome(result: Result<Vec<Instruction>, Error>) -> Result<
    Seq<InstructionView>,
    ErrorView,
> {
    match result {
        Ok(program) => Ok(program_view(program@)),
        Err(error) => Err(error@),
    }
}

/// Evaluation keeps no state: whatever two evaluations of one source
/// return, they return the same.
pub proof fn lemma_evaluation_is_reproducible(
    source: Seq<char>,
    first: Result<Vec<Instruction>, Error>,
    second: Result<Vec<Instruction>, Error>,
)
    requires
        outcome(first) == spec_evaluate(source),
        outcome(second) == spec_evaluate(source),
    ensures
        outcome(first) == outcome(second),
{
}

/// A program that an evaluation returns pushes floating-point literals only.
pub proof fn lemma_evaluation_pushes_literals(source: Seq<char>)
    ensures
        spec_evaluate(source) matches Ok(program) ==> pushes_literals(program),
{
    lemma_evaluation_with_pushes_literals(
        compiled(NUMBER_PATTERN@),
        compiled(IDENTIFIER_PATTERN@),
        source,
    );
}

/// The same, whatever the two patterns are.
pub proof fn lemma_evaluation_with_pushes_literals(
    number: Option<Regex>,
    identifier: Option<Regex>,
    source: Seq<char>,
)
    ensures
        spec_evaluate_with(number, identifier, source) matches Ok(program) ==> pushes_literals(
            program,
        ),
{
    if let (Some(number), Some(identifier)) = (number, identifier) {
        if let Some(tokens) = lex(standard_rules(number, identifier), source) {
            lemma_expr_advances(tokens, 0);
            if let Ok(expr) = spec_expr(tokens, 0).result {
                if plan(expr) is Ok {
                    lemma_program_pushes_literals(expr);
                }
            }
        }
    }
}

pub struct Evaluator {}

impl Evaluator {
    /// The built-in function that `name` names.
    pub fn resolve(name: &str) -> (function: Option<Function>)
        ensures
            function == builtin(name@),
    {
        if same(name, "sin") {
            Some(Function::Sin)
        } else if same(name, "cos") {
            Some(Function::Cos)
        } else {
            None
        }
    }

    /// Lowers `expr` to its postfix program.
    pub fn visit(expr: &Expr) -> (result: Result<Vec<Instruction>, Error>)
        ensures
            outcome(result) == plan(expr@),
        decreases expr,
    {
        match expr {
            Expr::NumberExpr(text) => {
                let mut program: Vec<Instruction> = Vec::new();
                program.push(Instruction::Push(text.clone()));
                assert(program_view(program@) =~= seq![InstructionView::Push(text@)]);
                Ok(program)
            },
            Expr::CallExpr(name, argument) => {
                let mut program = match Evaluator::visit(argument) {
                    Ok(program) => program,
                    Err(error) => {
                        return Err(error);
                    },
                };
                match Evaluator::resolve(name.as_str()) {
                    Some(function) => {
                        let ghost first = program_view(program@);
                        program.push(Instruction::Invoke(function));
                        assert(program_view(program@) =~= first + seq![
                            InstructionView::Invoke(function),
                        ]);
                        Ok(program)
                    },
                    None => Err(Error::UnresolvedReference(name.clone())),
                }
            },
            Expr::BinaryOperatorExpr(left, operator, right) => {
                let mut program = match Evaluator::visit(left) {
                    Ok(program) => program,
                    Err(error) => {
                        return Err(error);
                    },
                };
                let mut second = match Evaluator::visit(right) {
                    Ok(program) => program,
                    Err(error) => {
                        return Err(error);
                    },
                };
                let ghost first = program_view(program@);
                let ghost rest = program_view(second@);
                program.append(&mut second);
                program.push(Instruction::Apply(*operator));
                assert(program_view(program@) =~= first + rest + seq![
                    InstructionView::Apply(*operator),
                ]);
                Ok(program)
            },
        }
    }

    /// Evaluates `source` under the rules of the expression language.
    pub fn evaluate(source: &str) -> (result: Result<Vec<Instruction>, Error>)
        ensures
            outcome(result) == spec_evaluate(source@),
    {
        let number = compile(NUMBER_PATTERN);
        let identifier = compile(IDENTIFIER_PATTERN);
        Evaluator::evaluate_with(number, identifier, source)
    }

    /// Evaluates `source` under the rule list around the two patterns, as
    /// far as they compiled.
    pub fn evaluate_with(
        number: Option<Regex>,
        identifier: Option<Regex>,
        source: &str,
    ) -> (result: Result<Vec<Instruction>, Error>)
        ensures
            outcome(result) == spec_evaluate_with(number, identifier, source@),
    {
        let number = match number {
            Some(regex) => regex,
            None => {
                return Err(Error::InvalidRule);
            },
        };
        let identifier = match identifier {
            Some(regex) => regex,
            None => {
                return Err(Error::InvalidRule);
            },
        };
        let mut rules: Vec<Rule<'static>> = Vec::new();
        rules.push(Rule::with_regex(TokenKind::Number, number));
        rules.push(Rule::with_regex(TokenKind::Identifier, identifier));
        rules.push(Rule::with_keyword(TokenKind::Plus, "+"));
        rules.push(Rule::with_keyword(TokenKind::Minus, "-"));
        rules.push(Rule::with_keyword(TokenKind::StarStar, "**"));
        rules.push(Rule::with_keyword(TokenKind::Star, "*"));
        rules.push(Rule::with_keyword(TokenKind::Slash, "/"));
        rules.push(Rule::with_keyword(TokenKind::Percent, "%"));
        rules.push(Rule::with_keyword(TokenKind::OpenParen, "("));
        rules.push(Rule::with_keyword(TokenKind::CloseParen, ")"));
        assert(rules@ =~= standard_rules(number, identifier));
        let lexer = Lexer::new(rules);
        let tokens = match lexer.try_parse(source) {
            Some(tokens) => tokens,
            None => {
                return Err(Error::InvalidRule);
            },
        };
        let mut parser = Parser::new(tokens);
        let expr = match parser.parse() {
            Ok(expr) => expr,
            Err(error) => {
                return Err(error);
            },
        };
        Evaluator::visit(&expr)
    }
}

} // verus!
