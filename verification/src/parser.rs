//! The parser: it reads the tokens of a lexer, two at a time, and builds the
//! program that they spell, as `grammar` defines it.

use crate::ast::{
    expression_views, lemma_view_of_parts, statement_views, token_views, Expression,
    ExpressionView, ParseError, ParseErrorView, Program, Statement, StatementView,
};
use crate::grammar::{
    advance, binding_precedence, closes_statement, infix_precedence, leaf_expression,
    lemma_advance_token, lemma_advance_twice, lemma_program_step, opens_statement,
    parse_arguments_spec, parse_block_spec, parse_call_arguments_spec, parse_expression_spec,
    parse_expression_statement_spec, parse_function_spec, parse_if_spec, parse_infix_spec,
    parse_let_spec, parse_names_spec, parse_operator_spec, parse_parameters_spec,
    parse_prefix_spec, parse_program_spec, parse_return_spec, parse_statement_spec,
    parse_value_spec, resume_distance, token_or_eof, Precedence,
};
use crate::lexer::{Lexer, LimiterToken, Token, TokenView};
use vstd::prelude::*;

verus! {

/// What came of parsing an expression, over views.
pub open spec fn expression_outcome(r: Result<Expression, ParseError>) -> Result<
    ExpressionView,
    ParseErrorView,
> {
    match r {
        Ok(e) => Ok(e@),
        Err(error) => Err(error@),
    }
}

/// What came of parsing a statement, over views.
pub open spec fn statement_outcome(r: Result<Statement, ParseError>) -> Result<
    StatementView,
    ParseErrorView,
> {
    match r {
        Ok(s) => Ok(s@),
        Err(error) => Err(error@),
    }
}

/// What came of parsing a list of expressions, over views.
pub open spec fn expressions_outcome(r: Result<Vec<Expression>, ParseError>) -> Result<
    Seq<ExpressionView>,
    ParseErrorView,
> {
    match r {
        Ok(v) => Ok(expression_views(v@)),
        Err(error) => Err(error@),
    }
}

/// What came of parsing a list of statements, over views.
pub open spec fn statements_outcome(r: Result<Vec<Statement>, ParseError>) -> Result<
    Seq<StatementView>,
    ParseErrorView,
> {
    match r {
        Ok(v) => Ok(statement_views(v@)),
        Err(error) => Err(error@),
    }
}

/// What came of parsing a list of names, over views.
pub open spec fn names_outcome(r: Result<Vec<Token>, ParseError>) -> Result<
    Seq<TokenView>,
    ParseErrorView,
> {
    match r {
        Ok(v) => Ok(token_views(v@)),
        Err(error) => Err(error@),
    }
}

/// The expression that `token` is by itself, if it is one.
fn prefix_parsing_fn(token: &Token) -> (e: Option<Expression>)
    ensures
        match e {
            Some(x) => leaf_expression(token@) == Some(x@),
            None => leaf_expression(token@) is None,
        },
{
    match token {
        Token::Identifier(ident) => Some(Expression::Identifier(Token::Identifier(ident.clone()))),
        Token::Literal(digits) => Some(Expression::Literal(Token::Literal(digits.clone()))),
        Token::True => Some(Expression::Boolean(true)),
        Token::False => Some(Expression::Boolean(false)),
        _ => None,
    }
}

/// A parser over the tokens of one lexer. It holds the current token and the
/// one after it, and asks the lexer for more as it moves forward.
pub struct Parser {
    lexer: Lexer,
    curr_token: Option<Token>,
    peek_token: Option<Token>,
}

impl View for Parser {
    type V = Seq<TokenView>;

    /// The tokens that the parser has yet to read, the current one first.
    closed spec fn view(&self) -> Seq<TokenView> {
        self.pending()
    }
}

impl Parser {
    /// The tokens in the two slots, and behind them those that the lexer has
    /// yet to hand out.
    #[verifier::opaque]
    spec fn pending(&self) -> Seq<TokenView> {
        match (self.curr_token, self.peek_token) {
            (Some(c), Some(p)) => seq![c@, p@] + self.lexer@,
            (Some(c), None) => seq![c@],
            (None, _) => Seq::empty(),
        }
    }

    /// The invariant of a parser: its lexer is well formed, and a token slot
    /// is empty only when nothing is left to fill it with.
    #[verifier::opaque]
    pub closed spec fn wf(&self) -> bool {
        &&& self.lexer.wf()
        &&& self.curr_token is None ==> self.peek_token is None
        &&& self.peek_token is None ==> self.lexer@.len() == 0
    }

    /// Whether there is a current token.
    fn has_current(&self) -> (r: bool)
        ensures
            r == (self@.len() > 0),
    {
        reveal(Parser::pending);
        self.curr_token.is_some()
    }

    /// The parser that has all the tokens of `lexer` to read.
    pub fn new(lexer: Lexer) -> (parser: Parser)
        requires
            lexer.wf(),
        ensures
            parser.wf(),
            parser@ == lexer@,
    {
        reveal(Parser::pending);
        reveal(Parser::wf);
        let mut lexer = lexer;
        let ghost tokens = lexer@;
        let curr_token = lexer.next();
        let peek_token = lexer.next();
        let p = Parser { lexer, curr_token, peek_token };
        assert(p@ =~= tokens);
        p
    }

    /// Parses all the tokens that are left: the statements that they spell,
    /// and a diagnostic for each statement that could not be parsed.
    #[verifier::rlimit(40)]
    pub fn parse_program(&mut self) -> (program: Program)
        requires
            old(self).wf(),
        ensures
            final(self).wf(),
            final(self)@.len() == 0,
            program@ == parse_program_spec(old(self)@),
    {
        let mut prog = Program::new();
        let ghost ts = self@;
        assert(prog@.statements + parse_program_spec(ts).statements =~= parse_program_spec(
            ts,
        ).statements);
        assert(prog@.diagnostics + parse_program_spec(ts).diagnostics =~= parse_program_spec(
            ts,
        ).diagnostics);
        while self.has_current()
            invariant
                self.wf(),
                parse_program_spec(ts).statements == prog@.statements + parse_program_spec(
                    self@,
                ).statements,
                parse_program_spec(ts).diagnostics == prog@.diagnostics + parse_program_spec(
                    self@,
                ).diagnostics,
            decreases self@.len(),
        {
            let ghost before = self@;
            let ghost done = prog@;
            let ghost statement = parse_statement_spec(before);
            let ghost skipped = resume_distance(advance(before, statement.consumed));
            proof {
                lemma_program_step(before);
                lemma_advance_twice(before, statement.consumed, 1);
                lemma_advance_twice(before, statement.consumed, skipped);
                lemma_advance_twice(before, statement.consumed + skipped, 1);
            }
            if !self.curr_token_is(Token::Eof) {
                match self.parse_statement() {
                    Ok(s) => {
                        prog.push_statement(s);
                        proof {
                            let rest = parse_program_spec(
                                advance(before, statement.consumed + 1),
                            );
                            assert(done.statements + (seq![s@] + rest.statements)
                                =~= done.statements.push(s@) + rest.statements);
                        }
                    },
                    Err(e) => {
                        prog.push_diagnostic(e);
                        self.synchronize();
                        proof {
                            let rest = parse_program_spec(
                                advance(before, statement.consumed + skipped + 1),
                            );
                            assert(done.diagnostics + (seq![e@] + rest.diagnostics)
                                =~= done.diagnostics.push(e@) + rest.diagnostics);
                        }
                    },
                }
            }
            self.next_token();
        }
        proof {
            lemma_program_step(self@);
        }
        assert(prog@.statements =~= parse_program_spec(ts).statements);
        assert(prog@.diagnostics =~= parse_program_spec(ts).diagnostics);
        prog
    }

    /// Parses the statement that starts at the current token.
    #[verifier::rlimit(40)]
    fn parse_statement(&mut self) -> (r: Result<Statement, ParseError>)
        requires
            old(self).wf(),
        ensures
            final(self).wf(),
            statement_outcome(r) == parse_statement_spec(old(self)@).result,
            final(self)@ == advance(old(self)@, parse_statement_spec(old(self)@).consumed),
        decreases old(self)@.len(), 6nat,
    {
        match self.current() {
            Token::Let => self.parse_let_statement(),
            Token::Return => self.parse_return_statement(),
            _ => self.parse_expression_statement(),
        }
    }

    /// Moves forward by one token: the token after the current one becomes
    /// the current one, and the lexer hands out the one after that.
    fn next_token(&mut self)
        requires
            old(self).wf(),
        ensures
            final(self).wf(),
            final(self)@ == advance(old(self)@, 1),
    {
        reveal(Parser::pending);
        reveal(Parser::wf);
        self.curr_token = self.peek_token.take();
        self.peek_token = self.lexer.next();
        assert(self@ =~= advance(old(self)@, 1));
    }

    /// The current token, or the end of the input where there is none.
    fn current(&self) -> (token: Token)
        ensures
            token@ == token_or_eof(self@, 0),
    {
        reveal(Parser::pending);
        reveal(Parser::wf);
        match &self.curr_token {
            Some(t) => t.clone(),
            None => Token::Eof,
        }
    }

    /// The token after the current one, or the end of the input where there
    /// is none.
    fn lookahead(&self) -> (token: Token)
        requires
            self.wf(),
        ensures
            token@ == token_or_eof(self@, 1),
    {
        reveal(Parser::pending);
        reveal(Parser::wf);
        match &self.peek_token {
            Some(t) => t.clone(),
            None => Token::Eof,
        }
    }

    /// Whether there is a current token and it is `other`.
    fn curr_token_is(&self, other: Token) -> (r: bool)
        ensures
            r == (self@.len() > 0 && self@[0] == other@),
    {
        reveal(Parser::pending);
        reveal(Parser::wf);
        match &self.curr_token {
            Some(t) => *t == other,
            None => false,
        }
    }

    /// Whether there is a token after the current one and it is `other`.
    fn peek_token_is(&self, other: Token) -> (r: bool)
        requires
            self.wf(),
        ensures
            r == (self@.len() > 1 && self@[1] == other@),
    {
        reveal(Parser::pending);
        reveal(Parser::wf);
        match &self.peek_token {
            Some(t) => *t == other,
            None => false,
        }
    }

    /// Whether the current token closes a statement.
    fn at_statement_end(&self) -> (r: bool)
        ensures
            r == closes_statement(token_or_eof(self@, 0)),
    {
        reveal(Parser::pending);
        reveal(Parser::wf);
        match &self.curr_token {
            Some(Token::Limiter(LimiterToken::Semicolon)) | Some(Token::Eof) | None => true,
            _ => false,
        }
    }

    /// Whether the token after the current one opens a statement.
    fn before_statement(&self) -> (r: bool)
        requires
            self.wf(),
        ensures
            r == opens_statement(token_or_eof(self@, 1)),
    {
        reveal(Parser::pending);
        reveal(Parser::wf);
        match &self.peek_token {
            Some(Token::Let) | Some(Token::Return) => true,
            _ => false,
        }
    }

    /// The precedence with which the token after the current one binds as an
    /// operator between two operands.
    fn peek_precedence(&self) -> (precedence: Precedence)
        requires
            self.wf(),
        ensures
            precedence == binding_precedence(token_or_eof(self@, 1)),
    {
        reveal(Parser::pending);
        reveal(Parser::wf);
        match &self.peek_token {
            Some(t) => infix_precedence(t),
            None => Precedence::Lowest,
        }
    }

    /// Moves forward by one token where the token after the current one is
    /// `other`; reports the token found in its place where it is not.
    fn expect_peek(&mut self, other: Token) -> (r: Result<(), ParseError>)
        requires
            old(self).wf(),
        ensures
            final(self).wf(),
            match r {
                Ok(_) => old(self)@.len() > 1 && old(self)@[1] == other@ && final(self)@
                    == advance(old(self)@, 1),
                Err(error) => !(old(self)@.len() > 1 && old(self)@[1] == other@) && final(self)@
                    == old(self)@ && error@ == (ParseErrorView::UnexpectedToken {
                    expected: other@,
                    found: token_or_eof(old(self)@, 1),
                }),
            },
    {
        if self.peek_token_is(other.clone()) {
            self.next_token();
            Ok(())
        } else {
            Err(ParseError::UnexpectedToken { expected: other, found: self.lookahead() })
        }
    }

    /// Moves forward to the place where the parser takes up its work after a
    /// statement that failed.
    fn synchronize(&mut self)
        requires
            old(self).wf(),
        ensures
            final(self).wf(),
            final(self)@ == advance(old(self)@, resume_distance(old(self)@)),
    {
        let ghost ts = self@;
        let ghost mut k: nat = 0;
        while !self.at_statement_end() && !self.before_statement()
            invariant
                self.wf(),
                self@ == advance(ts, k),
                resume_distance(ts) == k + resume_distance(self@),
            decreases self@.len(),
        {
            proof {
                lemma_advance_twice(ts, k, 1);
                k = k + 1;
            }
            self.next_token();
        }
    }

    /// Parses the value of a `let` or a `return` statement and the semicolon
    /// behind it, the current token being the one before the value.
    #[verifier::rlimit(40)]
    fn parse_value(&mut self) -> (r: Result<Expression, ParseError>)
        requires
            old(self).wf(),
        ensures
            final(self).wf(),
            expression_outcome(r) == parse_value_spec(old(self)@).result,
            final(self)@ == advance(old(self)@, parse_value_spec(old(self)@).consumed),
        decreases old(self)@.len(), 4nat,
    {
        let ghost ts = self@;
        let ghost value = parse_expression_spec(advance(ts, 1), Precedence::Lowest);
        proof {
            lemma_advance_twice(ts, 1, value.consumed);
            lemma_advance_twice(ts, 1 + value.consumed, 1);
            lemma_advance_token(ts, 1 + value.consumed, 1);
        }
        self.next_token();
        let e = match self.parse_expression(Precedence::Lowest) {
            Ok(e) => e,
            Err(error) => {
                return Err(error);
            },
        };
        if self.peek_token_is(Token::Limiter(LimiterToken::Semicolon)) {
            self.next_token();
            Ok(e)
        } else {
            Err(ParseError::MissingSemicolon)
        }
    }

    /// Parses a `return` statement, the current token being `return`.
    fn parse_return_statement(&mut self) -> (r: Result<Statement, ParseError>)
        requires
            old(self).wf(),
        ensures
            final(self).wf(),
            statement_outcome(r) == parse_return_spec(old(self)@).result,
            final(self)@ == advance(old(self)@, parse_return_spec(old(self)@).consumed),
        decreases old(self)@.len(), 5nat,
    {
        match self.parse_value() {
            Ok(value) => Ok(Statement::Return(value)),
            Err(error) => Err(error),
        }
    }

    /// Parses a `let` statement, the current token being `let`.
    #[verifier::rlimit(40)]
    fn parse_let_statement(&mut self) -> (r: Result<Statement, ParseError>)
        requires
            old(self).wf(),
        ensures
            final(self).wf(),
            statement_outcome(r) == parse_let_spec(old(self)@).result,
            final(self)@ == advance(old(self)@, parse_let_spec(old(self)@).consumed),
        decreases old(self)@.len(), 5nat,
    {
        let ghost ts = self@;
        let identifier: Expression = match self.lookahead() {
            Token::Identifier(s) => Expression::Identifier(Token::Identifier(s)),
            found => {
                return Err(ParseError::ExpectedIdentifier(found));
            },
        };
        proof {
            lemma_advance_token(ts, 1, 1);
            lemma_advance_twice(ts, 1, 1);
            lemma_advance_twice(ts, 2, parse_value_spec(advance(ts, 2)).consumed);
        }
        self.next_token();
        match self.expect_peek(Token::Assign) {
            Ok(_) => {},
            Err(error) => {
                return Err(error);
            },
        }
        match self.parse_value() {
            Ok(value) => Ok(Statement::Let(identifier, value)),
            Err(error) => Err(error),
        }
    }

    /// Parses an expression that stands as a statement, with the semicolon
    /// after it if there is one.
    #[verifier::rlimit(40)]
    fn parse_expression_statement(&mut self) -> (r: Result<Statement, ParseError>)
        requires
            old(self).wf(),
        ensures
            final(self).wf(),
            statement_outcome(r) == parse_expression_statement_spec(old(self)@).result,
            final(self)@ == advance(
                old(self)@,
                parse_expression_statement_spec(old(self)@).consumed,
            ),
        decreases old(self)@.len(), 4nat,
    {
        let ghost ts = self@;
        let ghost parsed = parse_expression_spec(ts, Precedence::Lowest);
        let express = match self.parse_expression(Precedence::Lowest) {
            Ok(e) => e,
            Err(error) => {
                return Err(error);
            },
        };
        proof {
            lemma_advance_token(ts, parsed.consumed, 1);
            lemma_advance_twice(ts, parsed.consumed, 1);
        }
        if self.peek_token_is(Token::Limiter(LimiterToken::Semicolon)) {
            self.next_token();
        }
        Ok(Statement::Expression(express))
    }

    /// Parses the expression that starts at the current token and whose
    /// operators all bind more strongly than `precedence`.
    #[verifier::rlimit(40)]
    fn parse_expression(&mut self, precedence: Precedence) -> (r: Result<Expression, ParseError>)
        requires
            old(self).wf(),
        ensures
            final(self).wf(),
            expression_outcome(r) == parse_expression_spec(old(self)@, precedence).result,
            final(self)@ == advance(
                old(self)@,
                parse_expression_spec(old(self)@, precedence).consumed,
            ),
        decreases old(self)@.len(), 3nat,
    {
        let ghost ts = self@;
        let mut left = match self.parse_prefix() {
            Ok(e) => e,
            Err(error) => {
                return Err(error);
            },
        };
        let ghost mut done: nat = parse_prefix_spec(ts).consumed;
        while precedence.rank() < self.peek_precedence().rank()
            invariant
                self.wf(),
                ts == old(self)@,
                self@ == advance(ts, done),
                self@.len() <= ts.len(),
                parse_expression_spec(ts, precedence).result == parse_infix_spec(
                    left@,
                    self@,
                    precedence,
                ).result,
                parse_expression_spec(ts, precedence).consumed == done + parse_infix_spec(
                    left@,
                    self@,
                    precedence,
                ).consumed,
            decreases self@.len(),
        {
            let ghost before = self@;
            let ghost step = parse_operator_spec(left@, advance(before, 1));
            proof {
                lemma_advance_twice(before, 1, step.consumed);
                lemma_advance_twice(ts, done, 1 + step.consumed);
            }
            self.next_token();
            left = match self.parse_infix_expression(left) {
                Ok(e) => e,
                Err(error) => {
                    return Err(error);
                },
            };
            proof {
                done = done + 1 + step.consumed;
            }
        }
        Ok(left)
    }

    /// Parses the operand that starts at the current token.
    #[verifier::rlimit(40)]
    fn parse_prefix(&mut self) -> (r: Result<Expression, ParseError>)
        requires
            old(self).wf(),
        ensures
            final(self).wf(),
            expression_outcome(r) == parse_prefix_spec(old(self)@).result,
            final(self)@ == advance(old(self)@, parse_prefix_spec(old(self)@).consumed),
        decreases old(self)@.len(), 1nat,
    {
        let ghost ts = self@;
        let token = self.current();
        match prefix_parsing_fn(&token) {
            Some(e) => Ok(e),
            None => match token {
                Token::Bang | Token::Minus => {
                    let ghost operand = parse_expression_spec(advance(ts, 1), Precedence::Prefix);
                    proof {
                        lemma_advance_twice(ts, 1, operand.consumed);
                    }
                    self.next_token();
                    match self.parse_expression(Precedence::Prefix) {
                        Ok(e) => Ok(Expression::Prefix(token, Box::new(e))),
                        Err(error) => Err(error),
                    }
                },
                Token::Limiter(LimiterToken::LParen) => {
                    let ghost inner = parse_expression_spec(advance(ts, 1), Precedence::Lowest);
                    proof {
                        lemma_advance_twice(ts, 1, inner.consumed);
                        lemma_advance_twice(ts, 1 + inner.consumed, 1);
                        lemma_advance_token(ts, 1 + inner.consumed, 1);
                    }
                    self.next_token();
                    let e = match self.parse_expression(Precedence::Lowest) {
                        Ok(e) => e,
                        Err(error) => {
                            return Err(error);
                        },
                    };
                    match self.expect_peek(Token::Limiter(LimiterToken::RParen)) {
                        Ok(_) => Ok(e),
                        Err(error) => Err(error),
                    }
                },
                Token::If => self.parse_if_expression(),
                Token::Function => self.parse_function_literal(),
                _ => Err(ParseError::NoPrefixRule(token)),
            },
        }
    }

    /// Parses what the operator that is the current token makes of `left`:
    /// a call of `left`, or `left` and the expression behind the operator as
    /// its two operands.
    #[verifier::rlimit(40)]
    fn parse_infix_expression(&mut self, left: Expression) -> (r: Result<Expression, ParseError>)
        requires
            old(self).wf(),
            old(self)@.len() > 0,
        ensures
            final(self).wf(),
            expression_outcome(r) == parse_operator_spec(left@, old(self)@).result,
            final(self)@ == advance(old(self)@, parse_operator_spec(left@, old(self)@).consumed),
        decreases old(self)@.len(), 1nat,
    {
        let ghost ts = self@;
        let operator = self.current();
        let opens_call = match &operator {
            Token::Limiter(LimiterToken::LParen) => true,
            _ => false,
        };
        if opens_call {
            match self.parse_call_arguments() {
                Ok(arguments) => {
                    let e = Expression::Call(Box::new(left), arguments);
                    proof {
                        lemma_view_of_parts(e);
                    }
                    Ok(e)
                },
                Err(error) => Err(error),
            }
        } else {
            let precedence = infix_precedence(&operator);
            proof {
                lemma_advance_twice(
                    ts,
                    1,
                    parse_expression_spec(advance(ts, 1), binding_precedence(operator@)).consumed,
                );
            }
            self.next_token();
            match self.parse_expression(precedence) {
                Ok(right) => Ok(Expression::Infix(Box::new(left), operator, Box::new(right))),
                Err(error) => Err(error),
            }
        }
    }

    /// Parses the arguments of a call, the current token being the
    /// parenthesis that opens them.
    #[verifier::rlimit(40)]
    fn parse_call_arguments(&mut self) -> (r: Result<Vec<Expression>, ParseError>)
        requires
            old(self).wf(),
            old(self)@.len() > 0,
        ensures
            final(self).wf(),
            expressions_outcome(r) == parse_call_arguments_spec(old(self)@).result,
            final(self)@ == advance(old(self)@, parse_call_arguments_spec(old(self)@).consumed),
        decreases old(self)@.len(), 0nat,
    {
        let mut arguments: Vec<Expression> = Vec::new();
        if self.peek_token_is(Token::Limiter(LimiterToken::RParen)) {
            self.next_token();
            assert(expression_views(arguments@) =~= Seq::empty());
            return Ok(arguments);
        }
        let ghost ts = advance(self@, 1);
        let ghost mut done: nat = 0;
        self.next_token();
        assert(advance(ts, 0) =~= ts);
        loop
            invariant
                self.wf(),
                ts == advance(old(self)@, 1),
                old(self)@.len() > 0,
                token_or_eof(old(self)@, 1) != TokenView::Limiter(LimiterToken::RParen),
                self@ == advance(ts, done),
                parse_arguments_spec(ts).consumed == done + parse_arguments_spec(self@).consumed,
                parse_arguments_spec(ts).result == match parse_arguments_spec(self@).result {
                    Ok(rest) => Ok::<Seq<ExpressionView>, ParseErrorView>(
                        expression_views(arguments@) + rest,
                    ),
                    Err(error) => Err(error),
                },
            decreases self@.len(),
        {
            let ghost before = self@;
            let ghost read = arguments@;
            let ghost first = parse_expression_spec(before, Precedence::Lowest);
            proof {
                lemma_advance_token(before, first.consumed, 1);
                lemma_advance_twice(before, first.consumed, 1);
                lemma_advance_twice(before, first.consumed + 1, 1);
                lemma_advance_twice(ts, done, first.consumed);
                lemma_advance_twice(ts, done, first.consumed + 1);
                lemma_advance_twice(ts, done, first.consumed + 2);
                lemma_advance_twice(old(self)@, 1, done + first.consumed);
                lemma_advance_twice(old(self)@, 1, done + first.consumed + 1);
            }
            let e = match self.parse_expression(Precedence::Lowest) {
                Ok(e) => e,
                Err(error) => {
                    return Err(error);
                },
            };
            arguments.push(e);
            assert(expression_views(arguments@) =~= expression_views(read) + seq![e@]);
            if self.peek_token_is(Token::Limiter(LimiterToken::Comma)) {
                self.next_token();
                self.next_token();
                proof {
                    done = done + first.consumed + 2;
                    let rest = parse_arguments_spec(self@);
                    if rest.result is Ok {
                        assert(expression_views(read) + (seq![e@] + rest.result->Ok_0)
                            =~= expression_views(arguments@) + rest.result->Ok_0);
                    }
                }
            } else {
                match self.expect_peek(Token::Limiter(LimiterToken::RParen)) {
                    Ok(_) => {
                        return Ok(arguments);
                    },
                    Err(error) => {
                        return Err(error);
                    },
                }
            }
        }
    }

    /// Parses the names of the parameters of a function literal, the current
    /// token being the parenthesis that opens them.
    #[verifier::rlimit(40)]
    fn parse_function_parameters(&mut self) -> (r: Result<Vec<Token>, ParseError>)
        requires
            old(self).wf(),
        ensures
            final(self).wf(),
            names_outcome(r) == parse_parameters_spec(old(self)@).result,
            final(self)@ == advance(old(self)@, parse_parameters_spec(old(self)@).consumed),
    {
        let mut names: Vec<Token> = Vec::new();
        if self.peek_token_is(Token::Limiter(LimiterToken::RParen)) {
            self.next_token();
            assert(token_views(names@) =~= Seq::empty());
            return Ok(names);
        }
        let ghost ts = advance(self@, 1);
        let ghost mut done: nat = 0;
        self.next_token();
        assert(advance(ts, 0) =~= ts);
        loop
            invariant
                self.wf(),
                ts == advance(old(self)@, 1),
                token_or_eof(old(self)@, 1) != TokenView::Limiter(LimiterToken::RParen),
                self@ == advance(ts, done),
                parse_names_spec(ts).consumed == done + parse_names_spec(self@).consumed,
                parse_names_spec(ts).result == match parse_names_spec(self@).result {
                    Ok(rest) => Ok::<Seq<TokenView>, ParseErrorView>(token_views(names@) + rest),
                    Err(error) => Err(error),
                },
            decreases self@.len(),
        {
            let ghost before = self@;
            let ghost read = names@;
            proof {
                lemma_advance_twice(before, 1, 1);
                lemma_advance_twice(ts, done, 1);
                lemma_advance_twice(ts, done, 2);
                lemma_advance_twice(old(self)@, 1, done);
                lemma_advance_twice(old(self)@, 1, done + 1);
            }
            let name = match self.current() {
                Token::Identifier(s) => Token::Identifier(s),
                found => {
                    return Err(ParseError::ExpectedIdentifier(found));
                },
            };
            names.push(name);
            assert(token_views(names@) =~= token_views(read) + seq![name@]);
            if self.peek_token_is(Token::Limiter(LimiterToken::Comma)) {
                self.next_token();
                self.next_token();
                proof {
                    done = done + 2;
                    let rest = parse_names_spec(self@);
                    if rest.result is Ok {
                        assert(token_views(read) + (seq![name@] + rest.result->Ok_0)
                            =~= token_views(names@) + rest.result->Ok_0);
                    }
                }
            } else {
                match self.expect_peek(Token::Limiter(LimiterToken::RParen)) {
                    Ok(_) => {
                        return Ok(names);
                    },
                    Err(error) => {
                        return Err(error);
                    },
                }
            }
        }
    }

    /// Parses the statements of a block, the current token being the brace
    /// that opens it.
    #[verifier::rlimit(40)]
    fn parse_block_statement(&mut self) -> (r: Result<Vec<Statement>, ParseError>)
        requires
            old(self).wf(),
            old(self)@.len() > 0,
        ensures
            final(self).wf(),
            statements_outcome(r) == parse_block_spec(advance(old(self)@, 1)).result,
            final(self)@ == advance(
                old(self)@,
                1 + parse_block_spec(advance(old(self)@, 1)).consumed,
            ),
        decreases old(self)@.len(), 7nat,
    {
        let mut statements: Vec<Statement> = Vec::new();
        let ghost ts = advance(self@, 1);
        let ghost mut done: nat = 0;
        self.next_token();
        assert(advance(ts, 0) =~= ts);
        loop
            invariant
                self.wf(),
                ts == advance(old(self)@, 1),
                old(self)@.len() > 0,
                self@ == advance(ts, done),
                parse_block_spec(ts).consumed == done + parse_block_spec(self@).consumed,
                parse_block_spec(ts).result == match parse_block_spec(self@).result {
                    Ok(rest) => Ok::<Seq<StatementView>, ParseErrorView>(
                        statement_views(statements@) + rest,
                    ),
                    Err(error) => Err(error),
                },
            decreases self@.len(),
        {
            let ghost before = self@;
            let ghost read = statements@;
            let ghost statement = parse_statement_spec(before);
            proof {
                        lemma_advance_twice(before, statement.consumed, 1);
                lemma_advance_twice(ts, done, statement.consumed);
                lemma_advance_twice(ts, done, statement.consumed + 1);
                lemma_advance_twice(old(self)@, 1, done);
                lemma_advance_twice(old(self)@, 1, done + statement.consumed);
            }
            if self.curr_token_is(Token::Limiter(LimiterToken::RBrace)) {
                return Ok(statements);
            }
            if self.at_input_end() {
                return Err(
                    ParseError::UnexpectedToken {
                        expected: Token::Limiter(LimiterToken::RBrace),
                        found: Token::Eof,
                    },
                );
            }
            let s = match self.parse_statement() {
                Ok(s) => s,
                Err(error) => {
                    return Err(error);
                },
            };
            statements.push(s);
            assert(statement_views(statements@) =~= statement_views(read) + seq![s@]);
            self.next_token();
            proof {
                done = done + statement.consumed + 1;
                let rest = parse_block_spec(self@);
                if rest.result is Ok {
                    assert(statement_views(read) + (seq![s@] + rest.result->Ok_0)
                        =~= statement_views(statements@) + rest.result->Ok_0);
                }
            }
        }
    }

    /// Whether the current token is the end of the input, or there is none.
    fn at_input_end(&self) -> (r: bool)
        ensures
            r == (token_or_eof(self@, 0) == TokenView::Eof),
    {
        reveal(Parser::pending);
        reveal(Parser::wf);
        match &self.curr_token {
            Some(Token::Eof) | None => true,
            _ => false,
        }
    }

    /// Parses a conditional, the current token being `if`.
    #[verifier::rlimit(40)]
    fn parse_if_expression(&mut self) -> (r: Result<Expression, ParseError>)
        requires
            old(self).wf(),
        ensures
            final(self).wf(),
            expression_outcome(r) == parse_if_spec(old(self)@).result,
            final(self)@ == advance(old(self)@, parse_if_spec(old(self)@).consumed),
        decreases old(self)@.len(), 0nat,
    {
        let ghost ts = self@;
        match self.expect_peek(Token::Limiter(LimiterToken::LParen)) {
            Ok(_) => {},
            Err(error) => {
                return Err(error);
            },
        }
        let ghost parsed = parse_expression_spec(advance(ts, 2), Precedence::Lowest);
        let ghost at = 2 + parsed.consumed;
        proof {
            lemma_advance_twice(ts, 1, 1);
            lemma_advance_twice(ts, 2, parsed.consumed);
            lemma_advance_token(ts, at, 1);
            lemma_advance_twice(ts, at, 1);
            lemma_advance_token(ts, at + 1, 1);
            lemma_advance_twice(ts, at + 1, 1);
            lemma_advance_twice(ts, at + 2, 1);
        }
        self.next_token();
        let condition = match self.parse_expression(Precedence::Lowest) {
            Ok(e) => e,
            Err(error) => {
                return Err(error);
            },
        };
        match self.expect_peek(Token::Limiter(LimiterToken::RParen)) {
            Ok(_) => {},
            Err(error) => {
                return Err(error);
            },
        }
        match self.expect_peek(Token::Limiter(LimiterToken::LBrace)) {
            Ok(_) => {},
            Err(error) => {
                return Err(error);
            },
        }
        let ghost first = parse_block_spec(advance(ts, at + 3));
        let ghost end = at + 3 + first.consumed;
        proof {
            lemma_advance_twice(ts, at + 2, 1 + first.consumed);
            lemma_advance_token(ts, end, 1);
            lemma_advance_twice(ts, end, 1);
            lemma_advance_token(ts, end + 1, 1);
            lemma_advance_twice(ts, end + 1, 1);
            lemma_advance_twice(ts, end + 2, 1);
        }
        let consequence = match self.parse_block_statement() {
            Ok(block) => block,
            Err(error) => {
                return Err(error);
            },
        };
        if self.peek_token_is(Token::Else) {
            self.next_token();
            match self.expect_peek(Token::Limiter(LimiterToken::LBrace)) {
                Ok(_) => {},
                Err(error) => {
                    return Err(error);
                },
            }
            let ghost second = parse_block_spec(advance(ts, end + 3));
            proof {
                lemma_advance_twice(ts, end + 2, 1 + second.consumed);
            }
            match self.parse_block_statement() {
                Ok(alternative) => {
                    let e = Expression::If(Box::new(condition), consequence, Some(alternative));
                    proof {
                        lemma_view_of_parts(e);
                    }
                    Ok(e)
                },
                Err(error) => Err(error),
            }
        } else {
            let e = Expression::If(Box::new(condition), consequence, None);
            proof {
                lemma_view_of_parts(e);
            }
            Ok(e)
        }
    }

    /// Parses a function literal, the current token being `fn`.
    #[verifier::rlimit(40)]
    fn parse_function_literal(&mut self) -> (r: Result<Expression, ParseError>)
        requires
            old(self).wf(),
        ensures
            final(self).wf(),
            expression_outcome(r) == parse_function_spec(old(self)@).result,
            final(self)@ == advance(old(self)@, parse_function_spec(old(self)@).consumed),
        decreases old(self)@.len(), 0nat,
    {
        let ghost ts = self@;
        match self.expect_peek(Token::Limiter(LimiterToken::LParen)) {
            Ok(_) => {},
            Err(error) => {
                return Err(error);
            },
        }
        let ghost names = parse_parameters_spec(advance(ts, 1));
        let ghost at = 1 + names.consumed;
        proof {
            lemma_advance_twice(ts, 1, names.consumed);
            lemma_advance_token(ts, at, 1);
            lemma_advance_twice(ts, at, 1);
            lemma_advance_twice(ts, at + 1, 1);
            lemma_advance_twice(
                ts,
                at + 1,
                1 + parse_block_spec(advance(ts, at + 2)).consumed,
            );
        }
        let parameters = match self.parse_function_parameters() {
            Ok(p) => p,
            Err(error) => {
                return Err(error);
            },
        };
        match self.expect_peek(Token::Limiter(LimiterToken::LBrace)) {
            Ok(_) => {},
            Err(error) => {
                return Err(error);
            },
        }
        match self.parse_block_statement() {
            Ok(body) => {
                let e = Expression::Function(parameters, body);
                proof {
                    lemma_view_of_parts(e);
                }
                Ok(e)
            },
            Err(error) => Err(error),
        }
    }
}

} // verus!
