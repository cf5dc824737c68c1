//! Theorems about the token stream of a text and about the programs that
//! token streams spell.

use crate::ast::{ExpressionView, ParseErrorView, ProgramView, StatementView};
use crate::grammar::{
    advance, binding_precedence, leaf_expression, lemma_advance_token, lemma_advance_twice,
    lemma_program_step, parse_arguments_spec, parse_call_arguments_spec, parse_expression_spec,
    parse_expression_statement_spec, parse_infix_spec, parse_let_spec, parse_operator_spec,
    parse_prefix_spec, parse_program_spec, parse_return_spec, parse_statement_spec,
    parse_value_spec, token_or_eof, Parse, Precedence,
};
use crate::lexer::{
    is_digit, is_letter, is_whitespace, lemma_run_len, lemma_token_at_len, lemma_word_token_len,
    run_len, token_at, tokenize, tokens_from, word_token, CharClass, LimiterToken, TokenView,
};
use vstd::prelude::*;

verus! {

/// Where every character from `from` on belongs to `class`, the run that
/// starts at `from` reaches the end of the text.
pub proof fn lemma_run_to_end(s: Seq<char>, from: int, class: CharClass)
    requires
        0 <= from <= s.len(),
        forall|i: int| from <= i < s.len() ==> class.accepts(#[trigger] s[i]),
    ensures
        from + run_len(s, from, class) == s.len(),
    decreases s.len() - from,
{
    if from < s.len() {
        lemma_run_to_end(s, from + 1, class);
    }
}

/// A text that holds nothing but whitespace has one token: the end of the
/// input.
pub proof fn lemma_whitespace_only(s: Seq<char>)
    requires
        forall|i: int| 0 <= i < s.len() ==> is_whitespace(#[trigger] s[i]),
    ensures
        tokenize(s) == seq![TokenView::Eof],
{
    lemma_run_to_end(s, 0, CharClass::Whitespace);
}

/// The tokens of a text end with the end-of-input token, and that token
/// stands nowhere else among them.
pub proof fn lemma_tokens_end_with_eof(s: Seq<char>, from: int)
    ensures
        tokens_from(s, from).len() >= 1,
        tokens_from(s, from).last() == TokenView::Eof,
        forall|i: int|
            0 <= i < tokens_from(s, from).len() - 1 ==> #[trigger] tokens_from(s, from)[i]
                != TokenView::Eof,
    decreases s.len() - from,
{
    let at = from + run_len(s, from, CharClass::Whitespace);
    if 0 <= at < s.len() {
        lemma_token_at_len(s, at);
        lemma_tokens_end_with_eof(s, at + token_at(s, at).len());
    }
}

/// A text has no more tokens than it has characters, the end-of-input token
/// apart.
pub proof fn lemma_token_count(s: Seq<char>, from: int)
    requires
        0 <= from <= s.len(),
    ensures
        tokens_from(s, from).len() <= s.len() - from + 1,
    decreases s.len() - from,
{
    lemma_run_len(s, from, CharClass::Whitespace);
    let at = from + run_len(s, from, CharClass::Whitespace);
    if at < s.len() {
        lemma_token_at_len(s, at);
        lemma_token_count(s, at + token_at(s, at).len());
    }
}

/// The tokens of a text depend on its characters alone: two texts that agree
/// character by character have the same tokens in the same order.
pub proof fn lemma_tokenize_deterministic(a: Seq<char>, b: Seq<char>)
    requires
        a.len() == b.len(),
        forall|i: int| 0 <= i < a.len() ==> a[i] == b[i],
    ensures
        tokenize(a) == tokenize(b),
{
    assert(a =~= b);
}

/// Whether a token that ends with the character `x` would go on into a
/// character `y` that stands right behind it: two letters, two digits, or an
/// equals sign behind `=` or `!`.
pub open spec fn glues(x: char, y: char) -> bool {
    ||| is_letter(x) && is_letter(y)
    ||| is_digit(x) && is_digit(y)
    ||| (x == '=' || x == '!') && y == '='
}

/// Whether no token of `a` goes on into `b` where `b` is put behind `a`.
pub open spec fn separate(a: Seq<char>, b: Seq<char>) -> bool {
    a.len() == 0 || b.len() == 0 || !glues(a.last(), b[0])
}

/// A run that starts in the front part of a text is the run in that part
/// alone, and goes on behind it only where it reaches the end of the part.
pub proof fn lemma_run_in_front(a: Seq<char>, b: Seq<char>, from: int, class: CharClass)
    requires
        0 <= from <= a.len(),
    ensures
        run_len(a + b, from, class) == run_len(a, from, class) + (if from + run_len(
            a,
            from,
            class,
        ) == a.len() {
            run_len(a + b, a.len() as int, class)
        } else {
            0
        }),
    decreases a.len() - from,
{
    if from < a.len() {
        assert((a + b)[from] == a[from]);
        if class.accepts(a[from]) {
            lemma_run_in_front(a, b, from + 1, class);
        }
    }
}

/// A run in the back part of a text is the run in that part alone.
pub proof fn lemma_run_in_back(a: Seq<char>, b: Seq<char>, from: int, class: CharClass)
    requires
        0 <= from,
    ensures
        run_len(a + b, a.len() + from, class) == run_len(b, from, class),
    decreases b.len() - from,
{
    if from < b.len() {
        assert((a + b)[a.len() + from] == b[from]);
        if class.accepts(b[from]) {
            lemma_run_in_back(a, b, from + 1, class);
        }
    }
}

/// A token in the back part of a text is the token of that part alone.
pub proof fn lemma_token_in_back(a: Seq<char>, b: Seq<char>, at: int)
    requires
        0 <= at,
    ensures
        token_at(a + b, a.len() + at) == token_at(b, at),
{
    let s = a + b;
    if at < b.len() {
        assert(s[a.len() + at] == b[at]);
        if at + 1 < b.len() {
            assert(s[a.len() + at + 1] == b[at + 1]);
        }
        lemma_run_in_back(a, b, at, CharClass::Letter);
        lemma_run_in_back(a, b, at, CharClass::Digit);
        lemma_run_len(b, at, CharClass::Letter);
        lemma_run_len(b, at, CharClass::Digit);
        let letters = run_len(b, at, CharClass::Letter);
        let digits = run_len(b, at, CharClass::Digit);
        assert(s.subrange(a.len() + at, a.len() + at + letters) =~= b.subrange(at, at + letters));
        assert(s.subrange(a.len() + at, a.len() + at + digits) =~= b.subrange(at, at + digits));
    }
}

/// The tokens from a place in the back part of a text on are those of that
/// part alone.
pub proof fn lemma_tokens_in_back(a: Seq<char>, b: Seq<char>, from: int)
    requires
        0 <= from <= b.len(),
    ensures
        tokens_from(a + b, a.len() + from) == tokens_from(b, from),
    decreases b.len() - from,
{
    lemma_run_in_back(a, b, from, CharClass::Whitespace);
    lemma_run_len(b, from, CharClass::Whitespace);
    let at = from + run_len(b, from, CharClass::Whitespace);
    if at < b.len() {
        lemma_token_in_back(a, b, at);
        lemma_token_at_len(b, at);
        lemma_tokens_in_back(a, b, at + token_at(b, at).len());
    }
}

/// A token that starts in the front part of a text is the token of that part
/// alone, where no token of the front part goes on into the back part.
pub proof fn lemma_token_in_front(a: Seq<char>, b: Seq<char>, at: int)
    requires
        0 <= at < a.len(),
        separate(a, b),
    ensures
        token_at(a + b, at) == token_at(a, at),
{
    let s = a + b;
    assert(s[at] == a[at]);
    if at + 1 < a.len() {
        assert(s[at + 1] == a[at + 1]);
    } else if b.len() > 0 {
        assert(s[at + 1] == b[0]);
        assert(a.last() == a[at]);
    }
    lemma_run_in_front(a, b, at, CharClass::Letter);
    lemma_run_in_front(a, b, at, CharClass::Digit);
    lemma_run_len(a, at, CharClass::Letter);
    lemma_run_len(a, at, CharClass::Digit);
    let letters = run_len(a, at, CharClass::Letter);
    let digits = run_len(a, at, CharClass::Digit);
    if b.len() > 0 {
        assert(s[a.len() as int] == b[0]);
    }
    if is_letter(a[at]) && at + letters == a.len() {
        assert(is_letter(a[a.len() - 1]));
        assert(run_len(s, a.len() as int, CharClass::Letter) == 0);
    }
    if is_digit(a[at]) && at + digits == a.len() {
        assert(is_digit(a[a.len() - 1]));
        assert(run_len(s, a.len() as int, CharClass::Digit) == 0);
    }
    if is_letter(a[at]) {
        assert(s.subrange(at, at + letters) =~= a.subrange(at, at + letters));
    }
    if is_digit(a[at]) {
        assert(s.subrange(at, at + digits) =~= a.subrange(at, at + digits));
    }
}

/// The tokens from a place in the front part of a text on are those of the
/// front part alone, its end-of-input token left out, and then those from the
/// start of the back part on, where no token of the front part goes on into
/// the back part.
pub proof fn lemma_tokens_in_front(a: Seq<char>, b: Seq<char>, from: int)
    requires
        0 <= from <= a.len(),
        separate(a, b),
    ensures
        tokens_from(a + b, from) == tokens_from(a, from).drop_last() + tokens_from(
            a + b,
            a.len() as int,
        ),
    decreases a.len() - from,
{
    let s = a + b;
    lemma_run_in_front(a, b, from, CharClass::Whitespace);
    lemma_run_len(a, from, CharClass::Whitespace);
    lemma_run_len(s, a.len() as int, CharClass::Whitespace);
    let at = from + run_len(a, from, CharClass::Whitespace);
    if at < a.len() {
        lemma_token_in_front(a, b, at);
        lemma_token_at_len(a, at);
        let next = at + token_at(a, at).len();
        lemma_tokens_in_front(a, b, next);
        lemma_tokens_end_with_eof(a, next);
        assert(tokens_from(a, from).drop_last() =~= seq![token_at(a, at)] + tokens_from(
            a,
            next,
        ).drop_last());
        assert(tokens_from(s, from) =~= tokens_from(a, from).drop_last() + tokens_from(
            s,
            a.len() as int,
        ));
    } else {
        assert(tokens_from(a, from).drop_last() =~= Seq::<TokenView>::empty());
        assert(tokens_from(s, from) =~= tokens_from(s, a.len() as int));
    }
}

/// The tokens of two texts put together are the tokens of the first, its
/// end-of-input token left out, and then the tokens of the second, where no
/// token of the first goes on into the second.
pub proof fn lemma_tokenize_concat(a: Seq<char>, b: Seq<char>)
    requires
        separate(a, b),
    ensures
        tokenize(a + b) == tokenize(a).drop_last() + tokenize(b),
{
    lemma_tokens_in_front(a, b, 0);
    lemma_tokens_in_back(a, b, 0);
}

/// Whitespace in front of a text and behind it leaves the tokens of the text
/// as they are.
pub proof fn lemma_whitespace_around(before: Seq<char>, s: Seq<char>, after: Seq<char>)
    requires
        forall|i: int| 0 <= i < before.len() ==> is_whitespace(#[trigger] before[i]),
        forall|i: int| 0 <= i < after.len() ==> is_whitespace(#[trigger] after[i]),
    ensures
        tokenize(before + s + after) == tokenize(s),
{
    lemma_whitespace_only(before);
    lemma_whitespace_only(after);
    if before.len() > 0 {
        assert(is_whitespace(before[before.len() - 1]));
    }
    if after.len() > 0 {
        assert(is_whitespace(after[0]));
    }
    lemma_tokenize_concat(before, s);
    lemma_tokenize_concat(before + s, after);
    lemma_tokens_end_with_eof(s, 0);
    assert(tokenize(before + s) =~= tokenize(s));
    assert(tokenize(before + s + after) =~= tokenize(s));
}

/// A text of letters and underscores alone has two tokens: the keyword or
/// the name that it spells, and the end of the input.
pub proof fn lemma_word(word: Seq<char>)
    requires
        word.len() > 0,
        forall|i: int| 0 <= i < word.len() ==> is_letter(#[trigger] word[i]),
    ensures
        tokenize(word) == seq![word_token(word), TokenView::Eof],
{
    assert(is_letter(word[0]));
    lemma_run_to_end(word, 0, CharClass::Letter);
    lemma_word_token_len(word);
    assert(word.subrange(0, word.len() as int) =~= word);
    assert(token_at(word, 0) == word_token(word));
    assert(tokens_from(word, word.len() as int) =~= seq![TokenView::Eof]);
    assert(tokenize(word) =~= seq![word_token(word), TokenView::Eof]);
}

/// The program of the tokens that are left when only the end of the input
/// is: it is empty.
proof fn lemma_program_at_end()
    ensures
        parse_program_spec(seq![TokenView::Eof]) == ProgramView::empty(),
{
    let ts = seq![TokenView::Eof];
    assert(advance(ts, 1) =~= Seq::<TokenView>::empty());
    lemma_program_step(ts);
    lemma_program_step(advance(ts, 1));
}

/// Whether the tokens `value` are one expression from the first to the last
/// of them, where a semicolon follows.
pub open spec fn spells_expression(value: Seq<TokenView>) -> bool {
    let parsed = parse_expression_spec(
        value + seq![TokenView::Limiter(LimiterToken::Semicolon), TokenView::Eof],
        Precedence::Lowest,
    );
    parsed.result is Ok && parsed.consumed + 1 == value.len()
}

/// The expression that the tokens `value` are, where `spells_expression`
/// holds of them.
pub open spec fn expression_of(value: Seq<TokenView>) -> ExpressionView {
    parse_expression_spec(
        value + seq![TokenView::Limiter(LimiterToken::Semicolon), TokenView::Eof],
        Precedence::Lowest,
    ).result->Ok_0
}

/// The program of tokens that are one statement, which ends on the token
/// before the last, and then the end of the input: that statement alone.
#[verifier::rlimit(40)]
proof fn lemma_one_statement(ts: Seq<TokenView>)
    requires
        ts.len() >= 2,
        ts[0] != TokenView::Eof,
        ts[ts.len() - 1] == TokenView::Eof,
        parse_statement_spec(ts).result is Ok,
        parse_statement_spec(ts).consumed + 2 == ts.len(),
    ensures
        parse_program_spec(ts) == (ProgramView {
            statements: seq![parse_statement_spec(ts).result->Ok_0],
            diagnostics: Seq::empty(),
        }),
{
    let rest = advance(ts, parse_statement_spec(ts).consumed + 1);
    assert(rest =~= seq![TokenView::Eof]);
    lemma_program_at_end();
    lemma_program_step(ts);
    let program = parse_program_spec(ts);
    assert(program.statements =~= seq![parse_statement_spec(ts).result->Ok_0]);
    assert(program.diagnostics =~= Seq::empty());
}

/// A `let` statement whose value is one expression with a semicolon behind
/// it, by positions: what `parse_let_spec` makes of it.
#[verifier::rlimit(40)]
proof fn lemma_let_by_positions(ts: Seq<TokenView>, value: Parse<ExpressionView>)
    requires
        ts.len() >= 5,
        ts[0] == TokenView::Let,
        ts[1] is Identifier,
        ts[2] == TokenView::Assign,
        value == parse_expression_spec(advance(ts, 3), Precedence::Lowest),
        value.result is Ok,
        value.consumed + 5 < ts.len() + 1,
        ts[value.consumed as int + 4] == TokenView::Limiter(LimiterToken::Semicolon),
    ensures
        parse_statement_spec(ts).result == Ok::<StatementView, ParseErrorView>(
            StatementView::Let(ExpressionView::Identifier(ts[1]), value.result->Ok_0),
        ),
        parse_statement_spec(ts).consumed == value.consumed + 4,
{
    lemma_advance_twice(ts, 2, 1);
    lemma_advance_token(ts, 2, value.consumed as int + 2);
    assert(parse_value_spec(advance(ts, 2)).consumed == value.consumed + 2);
    assert(parse_statement_spec(ts) == parse_let_spec(ts));
}

/// A `return` statement whose value is one expression with a semicolon
/// behind it, by positions: what `parse_return_spec` makes of it.
#[verifier::rlimit(40)]
proof fn lemma_return_by_positions(ts: Seq<TokenView>, value: Parse<ExpressionView>)
    requires
        ts.len() >= 3,
        ts[0] == TokenView::Return,
        value == parse_expression_spec(advance(ts, 1), Precedence::Lowest),
        value.result is Ok,
        value.consumed + 3 < ts.len() + 1,
        ts[value.consumed as int + 2] == TokenView::Limiter(LimiterToken::Semicolon),
    ensures
        parse_statement_spec(ts).result == Ok::<StatementView, ParseErrorView>(
            StatementView::Return(value.result->Ok_0),
        ),
        parse_statement_spec(ts).consumed == value.consumed + 2,
{
    assert(parse_value_spec(ts).consumed == value.consumed + 2);
    assert(parse_statement_spec(ts) == parse_return_spec(ts));
}

/// A `let`, a name, an assignment sign, the tokens of one expression, and a
/// semicolon, with nothing after it: the program is one `let` statement that
/// binds that name to that expression, and there is no diagnostic.
#[verifier::rlimit(40)]
pub proof fn lemma_let_statement(name: Seq<char>, value: Seq<TokenView>)
    requires
        spells_expression(value),
    ensures
        parse_program_spec(
            seq![TokenView::Let, TokenView::Identifier(name), TokenView::Assign] + value
                + seq![TokenView::Limiter(LimiterToken::Semicolon), TokenView::Eof],
        ) == (ProgramView {
            statements: seq![
                StatementView::Let(
                    ExpressionView::Identifier(TokenView::Identifier(name)),
                    expression_of(value),
                ),
            ],
            diagnostics: Seq::empty(),
        }),
{
    let closing = seq![TokenView::Limiter(LimiterToken::Semicolon), TokenView::Eof];
    let ts = seq![TokenView::Let, TokenView::Identifier(name), TokenView::Assign] + value
        + closing;
    assert(advance(ts, 3) =~= value + closing);
    let parsed = parse_expression_spec(advance(ts, 3), Precedence::Lowest);
    assert(ts[value.len() as int + 3] == closing[0]);
    assert(ts[value.len() as int + 4] == closing[1]);
    lemma_let_by_positions(ts, parsed);
    lemma_one_statement(ts);
}

/// A `return`, the tokens of one expression, and a semicolon, with nothing
/// after it: the program is one `return` statement with that expression, and
/// there is no diagnostic.
#[verifier::rlimit(40)]
pub proof fn lemma_return_statement(value: Seq<TokenView>)
    requires
        spells_expression(value),
    ensures
        parse_program_spec(
            seq![TokenView::Return] + value + seq![
                TokenView::Limiter(LimiterToken::Semicolon),
                TokenView::Eof,
            ],
        ) == (ProgramView {
            statements: seq![StatementView::Return(expression_of(value))],
            diagnostics: Seq::empty(),
        }),
{
    let closing = seq![TokenView::Limiter(LimiterToken::Semicolon), TokenView::Eof];
    let ts = seq![TokenView::Return] + value + closing;
    assert(advance(ts, 1) =~= value + closing);
    let parsed = parse_expression_spec(advance(ts, 1), Precedence::Lowest);
    assert(ts[value.len() as int + 1] == closing[0]);
    assert(ts[value.len() as int + 2] == closing[1]);
    lemma_return_by_positions(ts, parsed);
    lemma_one_statement(ts);
}

/// A token that is an expression by itself, followed by a token that is no
/// operator or by an operator that binds no more strongly than `precedence`:
/// the expression is that token alone, and the parser does not move.
pub proof fn lemma_single_operand(ts: Seq<TokenView>, precedence: Precedence)
    requires
        leaf_expression(token_or_eof(ts, 0)) is Some,
        binding_precedence(token_or_eof(ts, 1)).rank() <= precedence.rank(),
    ensures
        parse_expression_spec(ts, precedence) == (Parse {
            result: Ok(leaf_expression(token_or_eof(ts, 0))->0),
            consumed: 0,
        }),
{
    assert(advance(ts, 0) =~= ts);
    assert(parse_prefix_spec(ts).consumed == 0);
}

/// Whether `token` is an operator that stands between two operands.
pub open spec fn is_binary_operator(token: TokenView) -> bool {
    binding_precedence(token) != Precedence::Lowest && token != TokenView::Limiter(
        LimiterToken::LParen,
    )
}

/// An operator between two operands, the current token being the operator
/// and the right operand standing alone: the result joins `left` and that
/// operand, and the parser moves forward by one token.
proof fn lemma_operator_step(left: ExpressionView, ts: Seq<TokenView>)
    requires
        is_binary_operator(token_or_eof(ts, 0)),
        leaf_expression(token_or_eof(ts, 1)) is Some,
        binding_precedence(token_or_eof(ts, 2)).rank() <= binding_precedence(
            token_or_eof(ts, 0),
        ).rank(),
    ensures
        parse_operator_spec(left, ts) == (Parse {
            result: Ok::<ExpressionView, ParseErrorView>(
                ExpressionView::Infix(
                    Box::new(left),
                    token_or_eof(ts, 0),
                    Box::new(leaf_expression(token_or_eof(ts, 1))->0),
                ),
            ),
            consumed: 1,
        }),
{
    lemma_advance_token(ts, 1, 0);
    lemma_advance_token(ts, 1, 1);
    lemma_single_operand(advance(ts, 1), binding_precedence(token_or_eof(ts, 0)));
}

/// Three operands with two operators between them, followed by a token that
/// is no operator. Where the second operator binds more strongly than the
/// first, it takes the second and the third operand, and the result is the
/// right operand of the first operator. Otherwise the first operator takes
/// the first and the second operand, and the result is the left operand of
/// the second operator: operators of one precedence group from the left.
#[verifier::rlimit(40)]
pub proof fn lemma_two_operators(
    a: TokenView,
    first: TokenView,
    b: TokenView,
    second: TokenView,
    c: TokenView,
    rest: Seq<TokenView>,
)
    requires
        leaf_expression(a) is Some,
        leaf_expression(b) is Some,
        leaf_expression(c) is Some,
        is_binary_operator(first),
        is_binary_operator(second),
        binding_precedence(token_or_eof(rest, 0)) == Precedence::Lowest,
    ensures
        parse_expression_spec(seq![a, first, b, second, c] + rest, Precedence::Lowest) == (Parse {
            result: Ok(
                if binding_precedence(first).rank() < binding_precedence(second).rank() {
                    ExpressionView::Infix(
                        Box::new(leaf_expression(a)->0),
                        first,
                        Box::new(
                            ExpressionView::Infix(
                                Box::new(leaf_expression(b)->0),
                                second,
                                Box::new(leaf_expression(c)->0),
                            ),
                        ),
                    )
                } else {
                    ExpressionView::Infix(
                        Box::new(
                            ExpressionView::Infix(
                                Box::new(leaf_expression(a)->0),
                                first,
                                Box::new(leaf_expression(b)->0),
                            ),
                        ),
                        second,
                        Box::new(leaf_expression(c)->0),
                    )
                },
            ),
            consumed: 4,
        }),
{
    let ts = seq![a, first, b, second, c] + rest;
    let from_first = advance(ts, 1);
    let from_b = advance(ts, 2);
    let from_second = advance(ts, 3);
    let from_c = advance(ts, 4);
    let left = leaf_expression(a)->0;
    let middle = leaf_expression(b)->0;
    let right = leaf_expression(c)->0;
    assert(advance(ts, 0) =~= ts);
    assert(advance(from_b, 0) =~= from_b);
    lemma_advance_twice(ts, 1, 1);
    lemma_advance_twice(ts, 2, 1);
    lemma_advance_twice(ts, 2, 2);
    assert(token_or_eof(from_first, 0) == first);
    assert(token_or_eof(from_first, 1) == b);
    assert(token_or_eof(from_first, 2) == second);
    assert(token_or_eof(from_b, 0) == b);
    assert(token_or_eof(from_b, 1) == second);
    assert(token_or_eof(from_second, 0) == second);
    assert(token_or_eof(from_second, 1) == c);
    assert(token_or_eof(from_second, 2) == token_or_eof(rest, 0));
    assert(token_or_eof(from_c, 1) == token_or_eof(rest, 0));
    assert(parse_prefix_spec(ts).result == Ok::<ExpressionView, ParseErrorView>(left));
    assert(parse_prefix_spec(from_b).result == Ok::<ExpressionView, ParseErrorView>(middle));
    if binding_precedence(first).rank() < binding_precedence(second).rank() {
        let inner = ExpressionView::Infix(Box::new(middle), second, Box::new(right));
        let whole = ExpressionView::Infix(Box::new(left), first, Box::new(inner));
        lemma_operator_step(middle, from_second);
        assert(parse_infix_spec(inner, from_c, binding_precedence(first)) == (Parse {
            result: Ok::<ExpressionView, ParseErrorView>(inner),
            consumed: 0,
        }));
        assert(parse_infix_spec(middle, from_b, binding_precedence(first)) == (Parse {
            result: Ok::<ExpressionView, ParseErrorView>(inner),
            consumed: 2,
        }));
        assert(parse_expression_spec(from_b, binding_precedence(first)) == (Parse {
            result: Ok::<ExpressionView, ParseErrorView>(inner),
            consumed: 2,
        }));
        assert(parse_operator_spec(left, from_first) == (Parse {
            result: Ok::<ExpressionView, ParseErrorView>(whole),
            consumed: 3,
        }));
        assert(parse_infix_spec(whole, from_c, Precedence::Lowest) == (Parse {
            result: Ok::<ExpressionView, ParseErrorView>(whole),
            consumed: 0,
        }));
        assert(parse_infix_spec(left, ts, Precedence::Lowest) == (Parse {
            result: Ok::<ExpressionView, ParseErrorView>(whole),
            consumed: 4,
        }));
    } else {
        let inner = ExpressionView::Infix(Box::new(left), first, Box::new(middle));
        let whole = ExpressionView::Infix(Box::new(inner), second, Box::new(right));
        lemma_operator_step(left, from_first);
        lemma_operator_step(inner, from_second);
        assert(parse_infix_spec(whole, from_c, Precedence::Lowest) == (Parse {
            result: Ok::<ExpressionView, ParseErrorView>(whole),
            consumed: 0,
        }));
        assert(parse_infix_spec(inner, from_b, Precedence::Lowest) == (Parse {
            result: Ok::<ExpressionView, ParseErrorView>(whole),
            consumed: 2,
        }));
        assert(parse_infix_spec(left, ts, Precedence::Lowest) == (Parse {
            result: Ok::<ExpressionView, ParseErrorView>(whole),
            consumed: 4,
        }));
    }
}

/// A token that is an expression by itself, one argument of the same kind in
/// parentheses behind it, and then a token that binds to nothing: the
/// expression is the call of the first with the second as its one argument,
/// and the parser stands on the closing parenthesis.
#[verifier::rlimit(40)]
pub proof fn lemma_call_with_one_argument(
    callee: TokenView,
    argument: TokenView,
    rest: Seq<TokenView>,
)
    requires
        leaf_expression(callee) is Some,
        leaf_expression(argument) is Some,
        binding_precedence(token_or_eof(rest, 0)) == Precedence::Lowest,
    ensures
        parse_expression_spec(
            seq![
                callee,
                TokenView::Limiter(LimiterToken::LParen),
                argument,
                TokenView::Limiter(LimiterToken::RParen),
            ] + rest,
            Precedence::Lowest,
        ) == (Parse {
            result: Ok(
                ExpressionView::Call(
                    Box::new(leaf_expression(callee)->0),
                    seq![leaf_expression(argument)->0],
                ),
            ),
            consumed: 3,
        }),
{
    let lparen = TokenView::Limiter(LimiterToken::LParen);
    let rparen = TokenView::Limiter(LimiterToken::RParen);
    let ts = seq![callee, lparen, argument, rparen] + rest;
    let from_paren = advance(ts, 1);
    let from_argument = advance(ts, 2);
    let from_closing = advance(ts, 3);
    let function = leaf_expression(callee)->0;
    let value = leaf_expression(argument)->0;
    let whole = ExpressionView::Call(Box::new(function), seq![value]);
    assert(advance(ts, 0) =~= ts);
    lemma_advance_twice(ts, 1, 1);
    lemma_advance_twice(ts, 1, 2);
    assert(token_or_eof(from_paren, 0) == lparen);
    assert(token_or_eof(from_paren, 1) == argument);
    assert(token_or_eof(from_argument, 0) == argument);
    assert(token_or_eof(from_argument, 1) == rparen);
    assert(token_or_eof(from_closing, 1) == token_or_eof(rest, 0));
    lemma_single_operand(from_argument, Precedence::Lowest);
    assert(parse_arguments_spec(from_argument) == (Parse {
        result: Ok::<Seq<ExpressionView>, ParseErrorView>(seq![value]),
        consumed: 1,
    }));
    assert(parse_call_arguments_spec(from_paren) == (Parse {
        result: Ok::<Seq<ExpressionView>, ParseErrorView>(seq![value]),
        consumed: 2,
    }));
    assert(parse_operator_spec(function, from_paren) == (Parse {
        result: Ok::<ExpressionView, ParseErrorView>(whole),
        consumed: 2,
    }));
    assert(parse_infix_spec(whole, from_closing, Precedence::Lowest) == (Parse {
        result: Ok::<ExpressionView, ParseErrorView>(whole),
        consumed: 0,
    }));
    assert(parse_infix_spec(function, ts, Precedence::Lowest) == (Parse {
        result: Ok::<ExpressionView, ParseErrorView>(whole),
        consumed: 3,
    }));
    assert(parse_prefix_spec(ts).result == Ok::<ExpressionView, ParseErrorView>(function));
}

/// Tokens that start with an expression which is followed by a semicolon and
/// by nothing else: the program is that expression as one statement, and
/// there is no diagnostic.
#[verifier::rlimit(40)]
pub proof fn lemma_expression_statement(ts: Seq<TokenView>)
    requires
        ts.len() > 0,
        ts[0] != TokenView::Let,
        ts[0] != TokenView::Return,
        ts[0] != TokenView::Eof,
        parse_expression_spec(ts, Precedence::Lowest).result is Ok,
        ts.len() == parse_expression_spec(ts, Precedence::Lowest).consumed + 3,
        ts[ts.len() - 2] == TokenView::Limiter(LimiterToken::Semicolon),
        ts[ts.len() - 1] == TokenView::Eof,
    ensures
        parse_program_spec(ts) == (ProgramView {
            statements: seq![
                StatementView::Expression(
                    parse_expression_spec(ts, Precedence::Lowest).result->Ok_0,
                ),
            ],
            diagnostics: Seq::empty(),
        }),
{
    let parsed = parse_expression_spec(ts, Precedence::Lowest);
    assert(parse_statement_spec(ts) == parse_expression_statement_spec(ts));
    assert(parse_statement_spec(ts).consumed == parsed.consumed + 1);
    lemma_one_statement(ts);
}

/// A name and a semicolon, with nothing after them: the program is one
/// expression statement that holds the name.
pub proof fn lemma_identifier_statement(name: Seq<char>)
    ensures
        parse_program_spec(
            seq![
                TokenView::Identifier(name),
                TokenView::Limiter(LimiterToken::Semicolon),
                TokenView::Eof,
            ],
        ) == (ProgramView {
            statements: seq![
                StatementView::Expression(ExpressionView::Identifier(TokenView::Identifier(name))),
            ],
            diagnostics: Seq::empty(),
        }),
{
    let ts = seq![
        TokenView::Identifier(name),
        TokenView::Limiter(LimiterToken::Semicolon),
        TokenView::Eof,
    ];
    lemma_single_operand(ts, Precedence::Lowest);
    lemma_expression_statement(ts);
}

/// The tokens of the text `let` with a space behind it.
proof fn lemma_let_keyword_text()
    ensures
        tokenize("let "@) == seq![TokenView::Let, TokenView::Eof],
        "let "@.len() == 4,
        "let "@.last() == ' ',
{
    reveal_strlit("let ");
    reveal_strlit("let");
    reveal_strlit("fn");
    reveal_strlit(" ");
    let word = "let"@;
    assert forall|i: int| 0 <= i < word.len() implies is_letter(#[trigger] word[i]) by {
        assert(i == 0 || i == 1 || i == 2);
    }
    lemma_word(word);
    lemma_whitespace_around(Seq::empty(), word, " "@);
    assert("let "@ =~= Seq::<char>::empty() + word + " "@);
}

/// The tokens of the text `return` with a space behind it.
proof fn lemma_return_keyword_text()
    ensures
        tokenize("return "@) == seq![TokenView::Return, TokenView::Eof],
        "return "@.len() == 7,
        "return "@.last() == ' ',
{
    reveal_strlit("return ");
    reveal_strlit("return");
    reveal_strlit("fn");
    reveal_strlit("let");
    reveal_strlit("true");
    reveal_strlit("false");
    reveal_strlit("if");
    reveal_strlit("else");
    reveal_strlit(" ");
    let word = "return"@;
    assert forall|i: int| 0 <= i < word.len() implies is_letter(#[trigger] word[i]) by {
        assert(i == 0 || i == 1 || i == 2 || i == 3 || i == 4 || i == 5);
    }
    lemma_word(word);
    lemma_whitespace_around(Seq::empty(), word, " "@);
    assert("return "@ =~= Seq::<char>::empty() + word + " "@);
}

/// The tokens of an assignment sign with a space on either side.
proof fn lemma_assign_text()
    ensures
        tokenize(" = "@) == seq![TokenView::Assign, TokenView::Eof],
        " = "@.len() == 3,
        " = "@[0] == ' ',
        " = "@.last() == ' ',
{
    reveal_strlit(" = ");
    reveal_strlit("=");
    reveal_strlit(" ");
    let sign = "="@;
    assert(run_len(sign, 0, CharClass::Whitespace) == 0);
    assert(token_at(sign, 0) == TokenView::Assign);
    assert(tokens_from(sign, 1) =~= seq![TokenView::Eof]);
    assert(tokenize(sign) =~= seq![TokenView::Assign, TokenView::Eof]);
    lemma_whitespace_around(" "@, sign, " "@);
    assert(" = "@ =~= " "@ + sign + " "@);
}

/// The tokens of a semicolon.
proof fn lemma_semicolon_text()
    ensures
        tokenize(";"@) == seq![TokenView::Limiter(LimiterToken::Semicolon), TokenView::Eof],
        ";"@.len() == 1,
        ";"@[0] == ';',
{
    reveal_strlit(";");
    let text = ";"@;
    assert(run_len(text, 0, CharClass::Whitespace) == 0);
    assert(token_at(text, 0) == TokenView::Limiter(LimiterToken::Semicolon));
    assert(tokens_from(text, 1) =~= seq![TokenView::Eof]);
    assert(tokenize(text) =~= seq![
        TokenView::Limiter(LimiterToken::Semicolon),
        TokenView::Eof,
    ]);
}

/// The text `let <name> = <value>;`, for every name of letters and
/// underscores that is no keyword and every text `value` whose tokens are one
/// expression: the program is one `let` statement that binds that name to
/// that expression, and there is no diagnostic.
pub proof fn lemma_let_text(name: Seq<char>, value: Seq<char>)
    requires
        name.len() > 0,
        forall|i: int| 0 <= i < name.len() ==> is_letter(#[trigger] name[i]),
        word_token(name) == TokenView::Identifier(name),
        spells_expression(tokenize(value).drop_last()),
    ensures
        parse_program_spec(tokenize("let "@ + name + " = "@ + value + ";"@)) == (ProgramView {
            statements: seq![
                StatementView::Let(
                    ExpressionView::Identifier(TokenView::Identifier(name)),
                    expression_of(tokenize(value).drop_last()),
                ),
            ],
            diagnostics: Seq::empty(),
        }),
{
    lemma_let_keyword_text();
    lemma_assign_text();
    lemma_semicolon_text();
    lemma_word(name);
    lemma_tokens_end_with_eof(value, 0);
    let named = "let "@ + name;
    let signed = named + " = "@;
    let valued = signed + value;
    assert(named.last() == name.last());
    assert(signed.last() == ' ');
    lemma_tokenize_concat("let "@, name);
    lemma_tokenize_concat(named, " = "@);
    lemma_tokenize_concat(signed, value);
    lemma_tokenize_concat(valued, ";"@);
    let tokens = tokenize(value).drop_last();
    assert(tokenize(named) =~= seq![TokenView::Let, TokenView::Identifier(name), TokenView::Eof]);
    assert(tokenize(signed) =~= seq![
        TokenView::Let,
        TokenView::Identifier(name),
        TokenView::Assign,
        TokenView::Eof,
    ]);
    assert(tokenize(valued + ";"@) =~= seq![
        TokenView::Let,
        TokenView::Identifier(name),
        TokenView::Assign,
    ] + tokens + seq![TokenView::Limiter(LimiterToken::Semicolon), TokenView::Eof]);
    lemma_let_statement(name, tokens);
}

/// The text `return <value>;`, for every text `value` whose tokens are one
/// expression: the program is one `return` statement with that expression,
/// and there is no diagnostic.
pub proof fn lemma_return_text(value: Seq<char>)
    requires
        spells_expression(tokenize(value).drop_last()),
    ensures
        parse_program_spec(tokenize("return "@ + value + ";"@)) == (ProgramView {
            statements: seq![StatementView::Return(expression_of(tokenize(value).drop_last()))],
            diagnostics: Seq::empty(),
        }),
{
    lemma_return_keyword_text();
    lemma_semicolon_text();
    lemma_tokens_end_with_eof(value, 0);
    let valued = "return "@ + value;
    lemma_tokenize_concat("return "@, value);
    lemma_tokenize_concat(valued, ";"@);
    let tokens = tokenize(value).drop_last();
    assert(tokenize(valued + ";"@) =~= seq![TokenView::Return] + tokens + seq![
        TokenView::Limiter(LimiterToken::Semicolon),
        TokenView::Eof,
    ]);
    lemma_return_statement(tokens);
}

} // verus!
