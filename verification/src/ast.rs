//! The syntax tree: expressions, statements, and the program that holds them,
//! together with the diagnostics of a parse.

use crate::lexer::{Token, TokenView};
use vstd::prelude::*;

verus! {

/// An expression.
#[derive(Debug, PartialEq)]
pub enum Expression {
    /// A name; holds the identifier token.
    Identifier(Token),
    /// A decimal numeral; holds the literal token.
    Literal(Token),
    /// `true` or `false`.
    Boolean(bool),
    /// An operator in front of its operand.
    Prefix(Token, Box<Expression>),
    /// An operator between its two operands: left operand, operator, right
    /// operand.
    Infix(Box<Expression>, Token, Box<Expression>),
    /// A conditional: the condition, the statements of the block that
    /// follows it, and those of the block behind `else` where there is one.
    If(Box<Expression>, Vec<Statement>, Option<Vec<Statement>>),
    /// A function literal: the identifier tokens of its parameters, and the
    /// statements of its body.
    Function(Vec<Token>, Vec<Statement>),
    /// A call: the expression that is called, and the arguments in order.
    Call(Box<Expression>, Vec<Expression>),
}

/// A statement.
#[derive(Debug, PartialEq)]
pub enum Statement {
    /// A binding: the name as an identifier expression, then the value.
    Let(Expression, Expression),
    /// A return, with the value that it hands back.
    Return(Expression),
    /// An expression that stands as a statement.
    Expression(Expression),
}

/// What an `Expression` stands for, over the views of its tokens.
pub enum ExpressionView {
    Identifier(TokenView),
    Literal(TokenView),
    Boolean(bool),
    Prefix(TokenView, Box<ExpressionView>),
    Infix(Box<ExpressionView>, TokenView, Box<ExpressionView>),
    If(Box<ExpressionView>, Seq<StatementView>, Option<Seq<StatementView>>),
    Function(Seq<TokenView>, Seq<StatementView>),
    Call(Box<ExpressionView>, Seq<ExpressionView>),
}

/// What a `Statement` stands for.
pub enum StatementView {
    Let(ExpressionView, ExpressionView),
    Return(ExpressionView),
    Expression(ExpressionView),
}

impl Expression {
    /// The view of the expression, built from the views of its parts.
    pub open spec fn to_view(&self) -> ExpressionView
        decreases self,
    {
        match self {
            Expression::Identifier(t) => ExpressionView::Identifier(t@),
            Expression::Literal(t) => ExpressionView::Literal(t@),
            Expression::Boolean(b) => ExpressionView::Boolean(*b),
            Expression::Prefix(op, operand) => ExpressionView::Prefix(
                op@,
                Box::new(operand.to_view()),
            ),
            Expression::Infix(left, op, right) => ExpressionView::Infix(
                Box::new(left.to_view()),
                op@,
                Box::new(right.to_view()),
            ),
            Expression::If(condition, consequence, alternative) => ExpressionView::If(
                Box::new(condition.to_view()),
                Seq::new(
                    consequence.len() as nat,
                    |i: int|
                        if 0 <= i < consequence.len() {
                            consequence[i].to_view()
                        } else {
                            arbitrary()
                        },
                ),
                match alternative {
                    Some(block) => Some(
                        Seq::new(
                            block.len() as nat,
                            |i: int|
                                if 0 <= i < block.len() {
                                    block[i].to_view()
                                } else {
                                    arbitrary()
                                },
                        ),
                    ),
                    None => None,
                },
            ),
            Expression::Function(parameters, body) => ExpressionView::Function(
                token_views(parameters@),
                Seq::new(
                    body.len() as nat,
                    |i: int|
                        if 0 <= i < body.len() {
                            body[i].to_view()
                        } else {
                            arbitrary()
                        },
                ),
            ),
            Expression::Call(function, arguments) => ExpressionView::Call(
                Box::new(function.to_view()),
                Seq::new(
                    arguments.len() as nat,
                    |i: int|
                        if 0 <= i < arguments.len() {
                            arguments[i].to_view()
                        } else {
                            arbitrary()
                        },
                ),
            ),
        }
    }
}

impl Statement {
    /// The view of the statement, built from the views of its parts.
    pub open spec fn to_view(&self) -> StatementView
        decreases self,
    {
        match self {
            Statement::Let(name, value) => StatementView::Let(name.to_view(), value.to_view()),
            Statement::Return(value) => StatementView::Return(value.to_view()),
            Statement::Expression(e) => StatementView::Expression(e.to_view()),
        }
    }
}

impl View for Expression {
    type V = ExpressionView;

    open spec fn view(&self) -> ExpressionView {
        self.to_view()
    }
}

impl View for Statement {
    type V = StatementView;

    open spec fn view(&self) -> StatementView {
        self.to_view()
    }
}

/// The views of the tokens `v`, in order.
pub open spec fn token_views(v: Seq<Token>) -> Seq<TokenView> {
    Seq::new(v.len(), |i: int| v[i]@)
}

/// The views of the expressions `v`, in order.
pub open spec fn expression_views(v: Seq<Expression>) -> Seq<ExpressionView> {
    Seq::new(v.len(), |i: int| v[i]@)
}

/// The views of the statements `v`, in order.
pub open spec fn statement_views(v: Seq<Statement>) -> Seq<StatementView> {
    Seq::new(v.len(), |i: int| v[i]@)
}

/// The view of a conditional, a function literal or a call holds the views
/// of the statements and expressions that it is made of.
pub proof fn lemma_view_of_parts(e: Expression)
    ensures
        match e {
            Expression::If(condition, consequence, alternative) => e@ == ExpressionView::If(
                Box::new(condition@),
                statement_views(consequence@),
                match alternative {
                    Some(block) => Some(statement_views(block@)),
                    None => None,
                },
            ),
            Expression::Function(parameters, body) => e@ == ExpressionView::Function(
                token_views(parameters@),
                statement_views(body@),
            ),
            Expression::Call(function, arguments) => e@ == ExpressionView::Call(
                Box::new(function@),
                expression_views(arguments@),
            ),
            _ => true,
        },
{
    match e {
        Expression::If(condition, consequence, alternative) => {
            assert(e@->If_1 =~= statement_views(consequence@));
            match alternative {
                Some(block) => {
                    assert(e@->If_2->0 =~= statement_views(block@));
                },
                None => {},
            }
        },
        Expression::Function(parameters, body) => {
            assert(e@->Function_1 =~= statement_views(body@));
        },
        Expression::Call(function, arguments) => {
            assert(e@->Call_1 =~= expression_views(arguments@));
        },
        _ => {},
    }
}

/// A copy of the tokens `tokens`.
fn clone_tokens(tokens: &Vec<Token>) -> (copies: Vec<Token>)
    ensures
        token_views(copies@) == token_views(tokens@),
{
    let mut copies: Vec<Token> = Vec::new();
    let mut i: usize = 0;
    while i < tokens.len()
        invariant
            i <= tokens.len(),
            copies.len() == i,
            forall|j: int| 0 <= j < i ==> copies[j]@ == tokens[j]@,
        decreases tokens.len() - i,
    {
        copies.push(tokens[i].clone());
        i += 1;
    }
    assert(token_views(copies@) =~= token_views(tokens@));
    copies
}

impl Clone for Expression {
    fn clone(&self) -> (res: Expression)
        ensures
            res@ == self@,
        decreases self,
    {
        match self {
            Expression::Identifier(t) => Expression::Identifier(t.clone()),
            Expression::Literal(t) => Expression::Literal(t.clone()),
            Expression::Boolean(b) => Expression::Boolean(*b),
            Expression::Prefix(op, operand) => Expression::Prefix(
                op.clone(),
                Box::new((&**operand).clone()),
            ),
            Expression::Infix(left, op, right) => Expression::Infix(
                Box::new((&**left).clone()),
                op.clone(),
                Box::new((&**right).clone()),
            ),
            Expression::If(condition, consequence, alternative) => {
                let mut first: Vec<Statement> = Vec::new();
                let mut i: usize = 0;
                while i < consequence.len()
                    invariant
                        i <= consequence.len(),
                        first.len() == i,
                        decreases_to!(self => consequence),
                        forall|j: int| 0 <= j < i ==> first[j]@ == consequence[j]@,
                    decreases consequence.len() - i,
                {
                    first.push(consequence[i].clone());
                    i += 1;
                }
                let second = match alternative {
                    Some(block) => {
                        let mut copies: Vec<Statement> = Vec::new();
                        let mut k: usize = 0;
                        while k < block.len()
                            invariant
                                k <= block.len(),
                                copies.len() == k,
                                decreases_to!(self => block),
                                forall|j: int| 0 <= j < k ==> copies[j]@ == block[j]@,
                            decreases block.len() - k,
                        {
                            copies.push(block[k].clone());
                            k += 1;
                        }
                        assert(statement_views(copies@) =~= statement_views(block@));
                        Some(copies)
                    },
                    None => None,
                };
                let res = Expression::If(Box::new((&**condition).clone()), first, second);
                proof {
                    assert(statement_views(first@) =~= statement_views(consequence@));
                    lemma_view_of_parts(res);
                    lemma_view_of_parts(*self);
                }
                res
            },
            Expression::Function(parameters, body) => {
                let mut copies: Vec<Statement> = Vec::new();
                let mut i: usize = 0;
                while i < body.len()
                    invariant
                        i <= body.len(),
                        copies.len() == i,
                        decreases_to!(self => body),
                        forall|j: int| 0 <= j < i ==> copies[j]@ == body[j]@,
                    decreases body.len() - i,
                {
                    copies.push(body[i].clone());
                    i += 1;
                }
                let res = Expression::Function(clone_tokens(parameters), copies);
                proof {
                    assert(statement_views(copies@) =~= statement_views(body@));
                    lemma_view_of_parts(res);
                    lemma_view_of_parts(*self);
                }
                res
            },
            Expression::Call(function, arguments) => {
                let mut copies: Vec<Expression> = Vec::new();
                let mut i: usize = 0;
                while i < arguments.len()
                    invariant
                        i <= arguments.len(),
                        copies.len() == i,
                        decreases_to!(self => arguments),
                        forall|j: int| 0 <= j < i ==> copies[j]@ == arguments[j]@,
                    decreases arguments.len() - i,
                {
                    copies.push(arguments[i].clone());
                    i += 1;
                }
                let res = Expression::Call(Box::new((&**function).clone()), copies);
                proof {
                    assert(expression_views(copies@) =~= expression_views(arguments@));
                    lemma_view_of_parts(res);
                    lemma_view_of_parts(*self);
                }
                res
            },
        }
    }
}

impl Clone for Statement {
    fn clone(&self) -> (res: Statement)
        ensures
            res@ == self@,
        decreases self,
    {
        match self {
            Statement::Let(name, value) => Statement::Let(name.clone(), value.clone()),
            Statement::Return(value) => Statement::Return(value.clone()),
            Statement::Expression(e) => Statement::Expression(e.clone()),
        }
    }
}

/// Why a statement could not be parsed.
#[derive(Debug, PartialEq)]
pub enum ParseError {
    /// `let` is not followed by a name; holds the token found in its place.
    ExpectedIdentifier(Token),
    /// One token was required and another one found.
    UnexpectedToken { expected: Token, found: Token },
    /// No semicolon follows the value of a `let` or a `return` statement.
    MissingSemicolon,
    /// An expression cannot start with this token.
    NoPrefixRule(Token),
}

/// What a `ParseError` stands for.
pub enum ParseErrorView {
    ExpectedIdentifier(TokenView),
    UnexpectedToken { expected: TokenView, found: TokenView },
    MissingSemicolon,
    NoPrefixRule(TokenView),
}

impl View for ParseError {
    type V = ParseErrorView;

    open spec fn view(&self) -> ParseErrorView {
        match self {
            ParseError::ExpectedIdentifier(t) => ParseErrorView::ExpectedIdentifier(t@),
            ParseError::UnexpectedToken { expected, found } => ParseErrorView::UnexpectedToken {
                expected: expected@,
                found: found@,
            },
            ParseError::MissingSemicolon => ParseErrorView::MissingSemicolon,
            ParseError::NoPrefixRule(t) => ParseErrorView::NoPrefixRule(t@),
        }
    }
}

impl Clone for ParseError {
    fn clone(&self) -> (res: ParseError)
        ensures
            res@ == self@,
    {
        match self {
            ParseError::ExpectedIdentifier(t) => ParseError::ExpectedIdentifier(t.clone()),
            ParseError::UnexpectedToken { expected, found } => ParseError::UnexpectedToken {
                expected: expected.clone(),
                found: found.clone(),
            },
            ParseError::MissingSemicolon => ParseError::MissingSemicolon,
            ParseError::NoPrefixRule(t) => ParseError::NoPrefixRule(t.clone()),
        }
    }
}

/// The result of a parse: the statements that were recognised, in the order
/// of the source, and the diagnostics of those that were not, in the same
/// order.
#[derive(Debug)]
pub struct Program {
    pub statements: Vec<Statement>,
    pub diagnostics: Vec<ParseError>,
}

/// What a `Program` stands for.
pub struct ProgramView {
    pub statements: Seq<StatementView>,
    pub diagnostics: Seq<ParseErrorView>,
}

impl ProgramView {
    /// The program without statements and without diagnostics.
    pub open spec fn empty() -> ProgramView {
        ProgramView { statements: Seq::empty(), diagnostics: Seq::empty() }
    }

    /// The program with `statement` put in front of its statements.
    pub open spec fn after_statement(self, statement: StatementView) -> ProgramView {
        ProgramView {
            statements: seq![statement] + self.statements,
            diagnostics: self.diagnostics,
        }
    }

    /// The program with `error` put in front of its diagnostics.
    pub open spec fn after_diagnostic(self, error: ParseErrorView) -> ProgramView {
        ProgramView {
            statements: self.statements,
            diagnostics: seq![error] + self.diagnostics,
        }
    }
}

impl View for Program {
    type V = ProgramView;

    open spec fn view(&self) -> ProgramView {
        ProgramView {
            statements: self.statements@.map_values(|s: Statement| s@),
            diagnostics: self.diagnostics@.map_values(|e: ParseError| e@),
        }
    }
}

impl Program {
    /// The program without statements and without diagnostics.
    pub fn new() -> (program: Program)
        ensures
            program@ == ProgramView::empty(),
    {
        let program = Program { statements: Vec::new(), diagnostics: Vec::new() };
        assert(program@.statements =~= Seq::empty());
        assert(program@.diagnostics =~= Seq::empty());
        program
    }

    /// Puts `statement` behind the statements of the program.
    pub fn push_statement(&mut self, statement: Statement)
        ensures
            final(self)@.statements == old(self)@.statements.push(statement@),
            final(self)@.diagnostics == old(self)@.diagnostics,
    {
        self.statements.push(statement);
        assert(self@.statements =~= old(self)@.statements.push(statement@));
        assert(self@.diagnostics =~= old(self)@.diagnostics);
    }

    /// Puts `error` behind the diagnostics of the program.
    pub fn push_diagnostic(&mut self, error: ParseError)
        ensures
            final(self)@.statements == old(self)@.statements,
            final(self)@.diagnostics == old(self)@.diagnostics.push(error@),
    {
        self.diagnostics.push(error);
        assert(self@.statements =~= old(self)@.statements);
        assert(self@.diagnostics =~= old(self)@.diagnostics.push(error@));
    }
}

} // verus!
