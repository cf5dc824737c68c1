//! The grammar, as functions from a sequence of tokens to what the parser
//! makes of it.
//!
//! Each function takes the tokens that are still to be read, the current one
//! first, and says what is recognised and how many tokens the parser moves
//! forward. A position after the last token reads as the end of the input.

use crate::ast::{ExpressionView, ParseErrorView, ProgramView, StatementView};
use crate::lexer::{LimiterToken, Token, TokenView};
use vstd::prelude::*;

verus! {

/// How strongly an operator binds, from the weakest to the strongest.
#[derive(Debug, Clone, Copy, PartialEq, Eq, Structural)]
pub enum Precedence {
    /// The level of a token that is no operator; every operator binds more
    /// strongly.
    Lowest,
    /// `==` and `!=`.
    Equals,
    /// `<` and `>`.
    LessGreater,
    /// `+` and `-` between two operands.
    Sum,
    /// `*` and `/`.
    Product,
    /// The level at which the operand of a prefix operator is read.
    Prefix,
    /// The parenthesis that opens the arguments of a call.
    Call,
}

impl Precedence {
    /// The place of the precedence on the ladder; a higher rank binds more
    /// strongly.
    #[verifier::allow_in_spec]
    pub fn rank(self) -> u8
        returns
            match self {
                Precedence::Lowest => 0u8,
                Precedence::Equals => 1u8,
                Precedence::LessGreater => 2u8,
                Precedence::Sum => 3u8,
                Precedence::Product => 4u8,
                Precedence::Prefix => 5u8,
                Precedence::Call => 6u8,
            },
    {
        match self {
            Precedence::Lowest => 0,
            Precedence::Equals => 1,
            Precedence::LessGreater => 2,
            Precedence::Sum => 3,
            Precedence::Product => 4,
            Precedence::Prefix => 5,
            Precedence::Call => 6,
        }
    }
}

/// The precedence with which `token` binds behind an operand: as an operator
/// between two operands, or as the parenthesis that opens the arguments of a
/// call; `Lowest` for a token that is neither.
pub open spec fn binding_precedence(token: TokenView) -> Precedence {
    match token {
        TokenView::EQ | TokenView::NotEq => Precedence::Equals,
        TokenView::LT | TokenView::GT => Precedence::LessGreater,
        TokenView::Plus | TokenView::Minus => Precedence::Sum,
        TokenView::Asterisk | TokenView::Slash => Precedence::Product,
        TokenView::Limiter(LimiterToken::LParen) => Precedence::Call,
        _ => Precedence::Lowest,
    }
}

/// The precedence with which `token` binds as an operator between two
/// operands.
pub fn infix_precedence(token: &Token) -> (precedence: Precedence)
    ensures
        precedence == binding_precedence(token@),
{
    match token {
        Token::EQ | Token::NotEq => Precedence::Equals,
        Token::LT | Token::GT => Precedence::LessGreater,
        Token::Plus | Token::Minus => Precedence::Sum,
        Token::Asterisk | Token::Slash => Precedence::Product,
        Token::Limiter(LimiterToken::LParen) => Precedence::Call,
        _ => Precedence::Lowest,
    }
}

/// The token at position `i` of `ts`, or the end of the input where `ts` has
/// no such position.
pub open spec fn token_or_eof(ts: Seq<TokenView>, i: int) -> TokenView {
    if 0 <= i < ts.len() {
        ts[i]
    } else {
        TokenView::Eof
    }
}

/// The tokens that are left of `ts` once the parser has moved forward by `n`
/// tokens; none where `ts` has fewer than `n`.
pub open spec fn advance(ts: Seq<TokenView>, n: nat) -> Seq<TokenView> {
    if n <= ts.len() {
        ts.skip(n as int)
    } else {
        Seq::empty()
    }
}

/// To move forward by `a` tokens and then by `b` is to move forward by
/// `a + b`.
pub proof fn lemma_advance_twice(ts: Seq<TokenView>, a: nat, b: nat)
    ensures
        advance(advance(ts, a), b) == advance(ts, a + b),
{
    assert(advance(advance(ts, a), b) =~= advance(ts, a + b));
}

/// The token at position `i` after a move by `n` tokens is the one that was
/// at position `n + i`.
pub proof fn lemma_advance_token(ts: Seq<TokenView>, n: nat, i: int)
    requires
        0 <= i,
    ensures
        token_or_eof(advance(ts, n), i) == token_or_eof(ts, n + i),
{
}

/// What the parser makes of the tokens in front of it: what it recognised or
/// why it could not, and by how many tokens it moved forward.
pub struct Parse<T> {
    pub result: Result<T, ParseErrorView>,
    pub consumed: nat,
}

/// The expression that `token` is by itself, if it is one: a name, a
/// numeral, `true` or `false`.
pub open spec fn leaf_expression(token: TokenView) -> Option<ExpressionView> {
    match token {
        TokenView::Identifier(_) => Some(ExpressionView::Identifier(token)),
        TokenView::Literal(_) => Some(ExpressionView::Literal(token)),
        TokenView::True => Some(ExpressionView::Boolean(true)),
        TokenView::False => Some(ExpressionView::Boolean(false)),
        _ => None,
    }
}

/// The error of a token `found` where `expected` had to stand.
pub open spec fn unexpected(expected: TokenView, found: TokenView) -> ParseErrorView {
    ParseErrorView::UnexpectedToken { expected, found }
}

/// The expression that starts at the current token and whose operators all
/// bind more strongly than `precedence`. On success the parser stands on the
/// last token of the expression.
pub open spec fn parse_expression_spec(ts: Seq<TokenView>, precedence: Precedence) -> Parse<
    ExpressionView,
>
    decreases ts.len(), 3nat,
{
    let head = parse_prefix_spec(ts);
    match head.result {
        Ok(left) => {
            let tail = parse_infix_spec(left, advance(ts, head.consumed), precedence);
            Parse { result: tail.result, consumed: head.consumed + tail.consumed }
        },
        Err(_) => head,
    }
}

/// The operand that starts at the current token: a token that is an
/// expression by itself, a prefix operator with its operand, an expression
/// in parentheses, a conditional, or a function literal.
pub open spec fn parse_prefix_spec(ts: Seq<TokenView>) -> Parse<ExpressionView>
    decreases ts.len(), 1nat,
{
    let token = token_or_eof(ts, 0);
    if leaf_expression(token) is Some {
        Parse { result: Ok(leaf_expression(token)->0), consumed: 0 }
    } else if token == TokenView::Bang || token == TokenView::Minus {
        let operand = parse_expression_spec(advance(ts, 1), Precedence::Prefix);
        Parse {
            result: match operand.result {
                Ok(e) => Ok(ExpressionView::Prefix(token, Box::new(e))),
                Err(error) => Err(error),
            },
            consumed: 1 + operand.consumed,
        }
    } else if token == TokenView::Limiter(LimiterToken::LParen) {
        let inner = parse_expression_spec(advance(ts, 1), Precedence::Lowest);
        let closing = token_or_eof(ts, 2 + inner.consumed as int);
        match inner.result {
            Ok(e) => if closing == TokenView::Limiter(LimiterToken::RParen) {
                Parse { result: Ok(e), consumed: 2 + inner.consumed }
            } else {
                Parse {
                    result: Err(unexpected(TokenView::Limiter(LimiterToken::RParen), closing)),
                    consumed: 1 + inner.consumed,
                }
            },
            Err(error) => Parse { result: Err(error), consumed: 1 + inner.consumed },
        }
    } else if token == TokenView::If {
        parse_if_spec(ts)
    } else if token == TokenView::Function {
        parse_function_spec(ts)
    } else {
        Parse { result: Err(ParseErrorView::NoPrefixRule(token)), consumed: 0 }
    }
}

/// A conditional, the current token being `if`: a condition in parentheses,
/// a block, and behind `else`, where that follows, a second block. On success
/// the parser stands on the brace that closes the last block.
pub open spec fn parse_if_spec(ts: Seq<TokenView>) -> Parse<ExpressionView>
    decreases ts.len(), 0nat,
{
    let lparen = TokenView::Limiter(LimiterToken::LParen);
    let rparen = TokenView::Limiter(LimiterToken::RParen);
    let lbrace = TokenView::Limiter(LimiterToken::LBrace);
    if ts.len() == 0 || token_or_eof(ts, 1) != lparen {
        Parse { result: Err(unexpected(lparen, token_or_eof(ts, 1))), consumed: 0 }
    } else {
        let condition = parse_expression_spec(advance(ts, 2), Precedence::Lowest);
        let at = 2 + condition.consumed;
        match condition.result {
            Err(error) => Parse { result: Err(error), consumed: at },
            Ok(c) => if token_or_eof(ts, at as int + 1) != rparen {
                Parse { result: Err(unexpected(rparen, token_or_eof(ts, at as int + 1))), consumed: at }
            } else if token_or_eof(ts, at as int + 2) != lbrace {
                Parse {
                    result: Err(unexpected(lbrace, token_or_eof(ts, at as int + 2))),
                    consumed: at + 1,
                }
            } else {
                let consequence = parse_block_spec(advance(ts, at + 3));
                let end = at + 3 + consequence.consumed;
                match consequence.result {
                    Err(error) => Parse { result: Err(error), consumed: end },
                    Ok(first) => if token_or_eof(ts, end as int + 1) != TokenView::Else {
                        Parse {
                            result: Ok(ExpressionView::If(Box::new(c), first, None)),
                            consumed: end,
                        }
                    } else if token_or_eof(ts, end as int + 2) != lbrace {
                        Parse {
                            result: Err(unexpected(lbrace, token_or_eof(ts, end as int + 2))),
                            consumed: end + 1,
                        }
                    } else {
                        let alternative = parse_block_spec(advance(ts, end + 3));
                        Parse {
                            result: match alternative.result {
                                Ok(second) => Ok(
                                    ExpressionView::If(Box::new(c), first, Some(second)),
                                ),
                                Err(error) => Err(error),
                            },
                            consumed: end + 3 + alternative.consumed,
                        }
                    },
                }
            },
        }
    }
}

/// A function literal, the current token being `fn`: the names of the
/// parameters in parentheses, and a block. On success the parser stands on
/// the brace that closes the block.
pub open spec fn parse_function_spec(ts: Seq<TokenView>) -> Parse<ExpressionView>
    decreases ts.len(), 0nat,
{
    let lparen = TokenView::Limiter(LimiterToken::LParen);
    let lbrace = TokenView::Limiter(LimiterToken::LBrace);
    if ts.len() == 0 || token_or_eof(ts, 1) != lparen {
        Parse { result: Err(unexpected(lparen, token_or_eof(ts, 1))), consumed: 0 }
    } else {
        let parameters = parse_parameters_spec(advance(ts, 1));
        let at = 1 + parameters.consumed;
        match parameters.result {
            Err(error) => Parse { result: Err(error), consumed: at },
            Ok(names) => if token_or_eof(ts, at as int + 1) != lbrace {
                Parse { result: Err(unexpected(lbrace, token_or_eof(ts, at as int + 1))), consumed: at }
            } else {
                let body = parse_block_spec(advance(ts, at + 2));
                Parse {
                    result: match body.result {
                        Ok(statements) => Ok(ExpressionView::Function(names, statements)),
                        Err(error) => Err(error),
                    },
                    consumed: at + 2 + body.consumed,
                }
            },
        }
    }
}

/// The names of the parameters of a function literal, the current token
/// being the parenthesis that opens them. On success the parser stands on the
/// parenthesis that closes them.
pub open spec fn parse_parameters_spec(ts: Seq<TokenView>) -> Parse<Seq<TokenView>> {
    if token_or_eof(ts, 1) == TokenView::Limiter(LimiterToken::RParen) {
        Parse { result: Ok(Seq::empty()), consumed: 1 }
    } else {
        let names = parse_names_spec(advance(ts, 1));
        Parse { result: names.result, consumed: 1 + names.consumed }
    }
}

/// One name or more with commas between them and a closing parenthesis
/// behind them, the current token being the first name. On success the parser
/// stands on that parenthesis.
pub open spec fn parse_names_spec(ts: Seq<TokenView>) -> Parse<Seq<TokenView>>
    decreases ts.len(),
{
    let name = token_or_eof(ts, 0);
    let next = token_or_eof(ts, 1);
    if !(name is Identifier) {
        Parse { result: Err(ParseErrorView::ExpectedIdentifier(name)), consumed: 0 }
    } else if next == TokenView::Limiter(LimiterToken::Comma) {
        let rest = parse_names_spec(advance(ts, 2));
        Parse {
            result: match rest.result {
                Ok(names) => Ok(seq![name] + names),
                Err(error) => Err(error),
            },
            consumed: 2 + rest.consumed,
        }
    } else if next == TokenView::Limiter(LimiterToken::RParen) {
        Parse { result: Ok(seq![name]), consumed: 1 }
    } else {
        Parse {
            result: Err(unexpected(TokenView::Limiter(LimiterToken::RParen), next)),
            consumed: 0,
        }
    }
}

/// The statements of a block up to the brace that closes it, the current
/// token being the one behind the brace that opens it. On success the parser
/// stands on the closing brace.
pub open spec fn parse_block_spec(ts: Seq<TokenView>) -> Parse<Seq<StatementView>>
    decreases ts.len(), 7nat,
{
    let token = token_or_eof(ts, 0);
    if token == TokenView::Limiter(LimiterToken::RBrace) {
        Parse { result: Ok(Seq::empty()), consumed: 0 }
    } else if token == TokenView::Eof {
        Parse {
            result: Err(unexpected(TokenView::Limiter(LimiterToken::RBrace), TokenView::Eof)),
            consumed: 0,
        }
    } else {
        let statement = parse_statement_spec(ts);
        match statement.result {
            Err(error) => Parse { result: Err(error), consumed: statement.consumed },
            Ok(s) => {
                let rest = parse_block_spec(advance(ts, statement.consumed + 1));
                Parse {
                    result: match rest.result {
                        Ok(statements) => Ok(seq![s] + statements),
                        Err(error) => Err(error),
                    },
                    consumed: statement.consumed + 1 + rest.consumed,
                }
            },
        }
    }
}

/// The arguments of a call, the current token being the parenthesis that
/// opens them. On success the parser stands on the parenthesis that closes
/// them.
pub open spec fn parse_call_arguments_spec(ts: Seq<TokenView>) -> Parse<Seq<ExpressionView>>
    decreases ts.len(), 0nat,
{
    if ts.len() == 0 || token_or_eof(ts, 1) == TokenView::Limiter(LimiterToken::RParen) {
        Parse { result: Ok(Seq::empty()), consumed: 1 }
    } else {
        let arguments = parse_arguments_spec(advance(ts, 1));
        Parse { result: arguments.result, consumed: 1 + arguments.consumed }
    }
}

/// One expression or more with commas between them and a closing parenthesis
/// behind them, the current token being the first of the first expression.
/// On success the parser stands on that parenthesis.
pub open spec fn parse_arguments_spec(ts: Seq<TokenView>) -> Parse<Seq<ExpressionView>>
    decreases ts.len(), 4nat,
{
    let first = parse_expression_spec(ts, Precedence::Lowest);
    let next = token_or_eof(ts, first.consumed as int + 1);
    match first.result {
        Err(error) => Parse { result: Err(error), consumed: first.consumed },
        Ok(e) => if next == TokenView::Limiter(LimiterToken::Comma) {
            let rest = parse_arguments_spec(advance(ts, first.consumed + 2));
            Parse {
                result: match rest.result {
                    Ok(arguments) => Ok(seq![e] + arguments),
                    Err(error) => Err(error),
                },
                consumed: first.consumed + 2 + rest.consumed,
            }
        } else if next == TokenView::Limiter(LimiterToken::RParen) {
            Parse { result: Ok(seq![e]), consumed: first.consumed + 1 }
        } else {
            Parse {
                result: Err(unexpected(TokenView::Limiter(LimiterToken::RParen), next)),
                consumed: first.consumed,
            }
        },
    }
}

/// What the operator that is the current token makes of `left`: a call of
/// `left` with the arguments that follow, where the token is an opening
/// parenthesis; else `left` and the expression behind the operator, whose
/// operators bind more strongly than the operator itself, as its two
/// operands.
pub open spec fn parse_operator_spec(left: ExpressionView, ts: Seq<TokenView>) -> Parse<
    ExpressionView,
>
    decreases ts.len(), 1nat,
{
    let operator = token_or_eof(ts, 0);
    if operator == TokenView::Limiter(LimiterToken::LParen) {
        let arguments = parse_call_arguments_spec(ts);
        Parse {
            result: match arguments.result {
                Ok(a) => Ok(ExpressionView::Call(Box::new(left), a)),
                Err(error) => Err(error),
            },
            consumed: arguments.consumed,
        }
    } else if ts.len() == 0 {
        Parse { result: Err(ParseErrorView::NoPrefixRule(TokenView::Eof)), consumed: 0 }
    } else {
        let right = parse_expression_spec(advance(ts, 1), binding_precedence(operator));
        Parse {
            result: match right.result {
                Ok(r) => Ok(ExpressionView::Infix(Box::new(left), operator, Box::new(r))),
                Err(error) => Err(error),
            },
            consumed: 1 + right.consumed,
        }
    }
}

/// The expression that `left` grows into: while the token after the current
/// one binds more strongly than `precedence`, it takes what was read so far
/// as its left operand, or as what is called.
pub open spec fn parse_infix_spec(
    left: ExpressionView,
    ts: Seq<TokenView>,
    precedence: Precedence,
) -> Parse<ExpressionView>
    decreases ts.len(), 2nat,
{
    if precedence.rank() < binding_precedence(token_or_eof(ts, 1)).rank() {
        let step = parse_operator_spec(left, advance(ts, 1));
        match step.result {
            Ok(e) => {
                let tail = parse_infix_spec(e, advance(ts, 1 + step.consumed), precedence);
                Parse { result: tail.result, consumed: 1 + step.consumed + tail.consumed }
            },
            Err(error) => Parse { result: Err(error), consumed: 1 + step.consumed },
        }
    } else {
        Parse { result: Ok(left), consumed: 0 }
    }
}

/// Whether `token` closes a statement: a semicolon, or the end of the input.
pub open spec fn closes_statement(token: TokenView) -> bool {
    token == TokenView::Limiter(LimiterToken::Semicolon) || token == TokenView::Eof
}

/// The value of a `let` or a `return` statement and the semicolon that
/// closes the statement, the current token being the one before the value:
/// the expression behind it, which a semicolon must follow. On success the
/// parser stands on that semicolon; where the expression fails, where it
/// failed; where no semicolon follows, on the last token of the expression.
pub open spec fn parse_value_spec(ts: Seq<TokenView>) -> Parse<ExpressionView>
    decreases ts.len(), 4nat,
{
    let value = parse_expression_spec(advance(ts, 1), Precedence::Lowest);
    let moved = 1 + value.consumed;
    match value.result {
        Ok(e) => if token_or_eof(ts, moved as int + 1) == TokenView::Limiter(
            LimiterToken::Semicolon,
        ) {
            Parse { result: Ok(e), consumed: moved + 1 }
        } else {
            Parse { result: Err(ParseErrorView::MissingSemicolon), consumed: moved }
        },
        Err(error) => Parse { result: Err(error), consumed: moved },
    }
}

/// A `let` statement, the current token being `let`: a name, an assignment
/// sign, the expression that is the value, and the semicolon that closes the
/// statement. On success the parser stands on that semicolon.
pub open spec fn parse_let_spec(ts: Seq<TokenView>) -> Parse<StatementView>
    decreases ts.len(), 5nat,
{
    let name = token_or_eof(ts, 1);
    let sign = token_or_eof(ts, 2);
    let value = parse_value_spec(advance(ts, 2));
    if !(name is Identifier) {
        Parse { result: Err(ParseErrorView::ExpectedIdentifier(name)), consumed: 0 }
    } else if sign != TokenView::Assign {
        Parse { result: Err(unexpected(TokenView::Assign, sign)), consumed: 1 }
    } else {
        Parse {
            result: match value.result {
                Ok(e) => Ok(StatementView::Let(ExpressionView::Identifier(name), e)),
                Err(error) => Err(error),
            },
            consumed: 2 + value.consumed,
        }
    }
}

/// A `return` statement, the current token being `return`: the expression
/// that is the value, and the semicolon that closes the statement. On success
/// the parser stands on that semicolon.
pub open spec fn parse_return_spec(ts: Seq<TokenView>) -> Parse<StatementView>
    decreases ts.len(), 5nat,
{
    let value = parse_value_spec(ts);
    Parse {
        result: match value.result {
            Ok(e) => Ok(StatementView::Return(e)),
            Err(error) => Err(error),
        },
        consumed: value.consumed,
    }
}

/// An expression that stands as a statement. A semicolon after it belongs to
/// the statement, and the parser then stands on it; without one the parser
/// stands on the last token of the expression.
pub open spec fn parse_expression_statement_spec(ts: Seq<TokenView>) -> Parse<StatementView>
    decreases ts.len(), 4nat,
{
    let parsed = parse_expression_spec(ts, Precedence::Lowest);
    match parsed.result {
        Ok(e) => Parse {
            result: Ok(StatementView::Expression(e)),
            consumed: if token_or_eof(ts, parsed.consumed as int + 1) == TokenView::Limiter(
                LimiterToken::Semicolon,
            ) {
                parsed.consumed + 1
            } else {
                parsed.consumed
            },
        },
        Err(error) => Parse { result: Err(error), consumed: parsed.consumed },
    }
}

/// The statement that starts at the current token, chosen by that token.
pub open spec fn parse_statement_spec(ts: Seq<TokenView>) -> Parse<StatementView>
    decreases ts.len(), 6nat,
{
    match token_or_eof(ts, 0) {
        TokenView::Let => parse_let_spec(ts),
        TokenView::Return => parse_return_spec(ts),
        _ => parse_expression_statement_spec(ts),
    }
}

/// Whether `token` opens a statement of its own kind: `let` or `return`.
pub open spec fn opens_statement(token: TokenView) -> bool {
    token == TokenView::Let || token == TokenView::Return
}

/// How far the parser moves on after a statement that failed, the current
/// token being the one at which it failed: up to the first token that closes
/// a statement or is followed by one that opens a statement.
pub open spec fn resume_distance(ts: Seq<TokenView>) -> nat
    decreases ts.len(),
{
    if ts.len() > 0 && !closes_statement(ts[0]) && !opens_statement(token_or_eof(ts, 1)) {
        1 + resume_distance(advance(ts, 1))
    } else {
        0
    }
}

/// The program that the tokens `ts` spell: statement after statement up to
/// the end of the input. A statement that cannot be parsed leaves its
/// diagnostic in place of a statement, and the parser takes up its work at
/// the next place where a statement can begin.
#[verifier::opaque]
pub open spec fn parse_program_spec(ts: Seq<TokenView>) -> ProgramView
    decreases ts.len(),
{
    if ts.len() == 0 {
        ProgramView::empty()
    } else if ts[0] == TokenView::Eof {
        parse_program_spec(advance(ts, 1))
    } else {
        let statement = parse_statement_spec(ts);
        match statement.result {
            Ok(s) => parse_program_spec(advance(ts, statement.consumed + 1)).after_statement(s),
            Err(error) => {
                let skipped = resume_distance(advance(ts, statement.consumed));
                parse_program_spec(
                    advance(ts, statement.consumed + skipped + 1),
                ).after_diagnostic(error)
            },
        }
    }
}

/// One step of `parse_program_spec`: the program of no tokens is empty, and
/// the program of the tokens `ts` comes from the program of the tokens behind
/// the first statement or behind the end-of-input token.
pub proof fn lemma_program_step(ts: Seq<TokenView>)
    ensures
        ts.len() == 0 ==> parse_program_spec(ts) == ProgramView::empty(),
        ts.len() > 0 && ts[0] == TokenView::Eof ==> parse_program_spec(ts) == parse_program_spec(
            advance(ts, 1),
        ),
        ts.len() > 0 && ts[0] != TokenView::Eof ==> parse_program_spec(ts) == match parse_statement_spec(
            ts,
        ).result {
            Ok(s) => parse_program_spec(
                advance(ts, parse_statement_spec(ts).consumed + 1),
            ).after_statement(s),
            Err(error) => parse_program_spec(
                advance(
                    ts,
                    parse_statement_spec(ts).consumed + resume_distance(
                        advance(ts, parse_statement_spec(ts).consumed),
                    ) + 1,
                ),
            ).after_diagnostic(error),
        },
{
    reveal(parse_program_spec);
}

} // verus!
