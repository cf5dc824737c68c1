//! Tokens and the lexer that produces them from source text.

use vstd::prelude::*;
use vstd::string::*;

verus! {

/// Punctuation that separates or groups other tokens.
#[derive(Debug, Clone, Copy, PartialEq, Eq, Structural)]
pub enum LimiterToken {
    Comma,
    Semicolon,
    LParen,
    RParen,
    LBrace,
    RBrace,
}

/// One lexical unit of the source text.
#[derive(Debug)]
pub enum Token {
    /// A character that starts no token.
    Illegal,
    /// The end of the input.
    Eof,
    /// A name, with its spelling.
    Identifier(String),
    /// A decimal numeral, with its digits as written.
    Literal(String),
    Limiter(LimiterToken),
    Assign,
    Plus,
    Minus,
    Bang,
    Asterisk,
    Slash,
    LT,
    GT,
    EQ,
    NotEq,
    Function,
    Let,
    True,
    False,
    If,
    Else,
    Return,
}

/// What a `Token` stands for: the same variants, with the spelling of a name
/// or a numeral as a sequence of characters.
pub enum TokenView {
    Illegal,
    Eof,
    Identifier(Seq<char>),
    Literal(Seq<char>),
    Limiter(LimiterToken),
    Assign,
    Plus,
    Minus,
    Bang,
    Asterisk,
    Slash,
    LT,
    GT,
    EQ,
    NotEq,
    Function,
    Let,
    True,
    False,
    If,
    Else,
    Return,
}

impl TokenView {
    /// The number of source characters that the token stands for.
    pub open spec fn len(self) -> nat {
        match self {
            TokenView::Eof => 0,
            TokenView::Identifier(s) | TokenView::Literal(s) => s.len(),
            TokenView::Illegal
            | TokenView::Limiter(_)
            | TokenView::Assign
            | TokenView::Plus
            | TokenView::Minus
            | TokenView::Bang
            | TokenView::Asterisk
            | TokenView::Slash
            | TokenView::LT
            | TokenView::GT => 1,
            TokenView::Function | TokenView::If | TokenView::EQ | TokenView::NotEq => 2,
            TokenView::Let => 3,
            TokenView::True | TokenView::Else => 4,
            TokenView::False => 5,
            TokenView::Return => 6,
        }
    }
}

impl View for Token {
    type V = TokenView;

    open spec fn view(&self) -> TokenView {
        match self {
            Token::Illegal => TokenView::Illegal,
            Token::Eof => TokenView::Eof,
            Token::Identifier(s) => TokenView::Identifier(s@),
            Token::Literal(s) => TokenView::Literal(s@),
            Token::Limiter(l) => TokenView::Limiter(*l),
            Token::Assign => TokenView::Assign,
            Token::Plus => TokenView::Plus,
            Token::Minus => TokenView::Minus,
            Token::Bang => TokenView::Bang,
            Token::Asterisk => TokenView::Asterisk,
            Token::Slash => TokenView::Slash,
            Token::LT => TokenView::LT,
            Token::GT => TokenView::GT,
            Token::EQ => TokenView::EQ,
            Token::NotEq => TokenView::NotEq,
            Token::Function => TokenView::Function,
            Token::Let => TokenView::Let,
            Token::True => TokenView::True,
            Token::False => TokenView::False,
            Token::If => TokenView::If,
            Token::Else => TokenView::Else,
            Token::Return => TokenView::Return,
        }
    }
}

impl Token {
    /// The number of source characters that the token stands for: the length
    /// of its spelling, one for an illegal character, none for the end of the
    /// input.
    pub fn len(&self) -> (n: usize)
        ensures
            n == self@.len(),
    {
        match self {
            Token::Eof => 0,
            Token::Identifier(s) | Token::Literal(s) => s.as_str().unicode_len(),
            Token::Illegal
            | Token::Limiter(_)
            | Token::Assign
            | Token::Plus
            | Token::Minus
            | Token::Bang
            | Token::Asterisk
            | Token::Slash
            | Token::LT
            | Token::GT => 1,
            Token::Function | Token::If | Token::EQ | Token::NotEq => 2,
            Token::Let => 3,
            Token::True | Token::Else => 4,
            Token::False => 5,
            Token::Return => 6,
        }
    }
}

impl Clone for Token {
    fn clone(&self) -> (res: Token)
        ensures
            res == *self,
    {
        match self {
            Token::Illegal => Token::Illegal,
            Token::Eof => Token::Eof,
            Token::Identifier(s) => Token::Identifier(s.clone()),
            Token::Literal(s) => Token::Literal(s.clone()),
            Token::Limiter(l) => Token::Limiter(*l),
            Token::Assign => Token::Assign,
            Token::Plus => Token::Plus,
            Token::Minus => Token::Minus,
            Token::Bang => Token::Bang,
            Token::Asterisk => Token::Asterisk,
            Token::Slash => Token::Slash,
            Token::LT => Token::LT,
            Token::GT => Token::GT,
            Token::EQ => Token::EQ,
            Token::NotEq => Token::NotEq,
            Token::Function => Token::Function,
            Token::Let => Token::Let,
            Token::True => Token::True,
            Token::False => Token::False,
            Token::If => Token::If,
            Token::Else => Token::Else,
            Token::Return => Token::Return,
        }
    }
}

impl PartialEq for Token {
    /// Two tokens are equal when they are the same variant with the same
    /// spelling.
    fn eq(&self, other: &Token) -> (r: bool) {
        match (self, other) {
            (Token::Illegal, Token::Illegal) => true,
            (Token::Eof, Token::Eof) => true,
            (Token::Identifier(a), Token::Identifier(b)) => String::eq(a, b),
            (Token::Literal(a), Token::Literal(b)) => String::eq(a, b),
            (Token::Limiter(a), Token::Limiter(b)) => *a == *b,
            (Token::Assign, Token::Assign) => true,
            (Token::Plus, Token::Plus) => true,
            (Token::Minus, Token::Minus) => true,
            (Token::Bang, Token::Bang) => true,
            (Token::Asterisk, Token::Asterisk) => true,
            (Token::Slash, Token::Slash) => true,
            (Token::LT, Token::LT) => true,
            (Token::GT, Token::GT) => true,
            (Token::EQ, Token::EQ) => true,
            (Token::NotEq, Token::NotEq) => true,
            (Token::Function, Token::Function) => true,
            (Token::Let, Token::Let) => true,
            (Token::True, Token::True) => true,
            (Token::False, Token::False) => true,
            (Token::If, Token::If) => true,
            (Token::Else, Token::Else) => true,
            (Token::Return, Token::Return) => true,
            _ => false,
        }
    }
}

impl vstd::std_specs::cmp::PartialEqSpecImpl for Token {
    open spec fn obeys_eq_spec() -> bool {
        true
    }

    open spec fn eq_spec(&self, other: &Token) -> bool {
        self@ == other@
    }
}

/// `true` for an ASCII letter or an underscore: the characters of a name.
#[verifier::allow_in_spec]
pub fn is_letter(ch: char) -> bool
    returns
        ('a' <= ch && ch <= 'z') || ('A' <= ch && ch <= 'Z') || ch == '_',
{
    ('a' <= ch && ch <= 'z') || ('A' <= ch && ch <= 'Z') || ch == '_'
}

/// `true` for a decimal digit, `0` to `9`.
#[verifier::allow_in_spec]
pub fn is_digit(ch: char) -> bool
    returns
        '0' <= ch && ch <= '9',
{
    '0' <= ch && ch <= '9'
}

/// `true` for a space, a tab, a line feed or a carriage return.
#[verifier::allow_in_spec]
pub fn is_whitespace(ch: char) -> bool
    returns
        ch == ' ' || ch == '\t' || ch == '\n' || ch == '\r',
{
    ch == ' ' || ch == '\t' || ch == '\n' || ch == '\r'
}

/// The classes of characters that the lexer reads in runs.
#[derive(Debug, Clone, Copy, PartialEq, Eq, Structural)]
pub enum CharClass {
    Letter,
    Digit,
    Whitespace,
}

impl CharClass {
    /// Whether `ch` belongs to the class.
    #[verifier::allow_in_spec]
    pub fn accepts(self, ch: char) -> bool
        returns
            match self {
                CharClass::Letter => is_letter(ch),
                CharClass::Digit => is_digit(ch),
                CharClass::Whitespace => is_whitespace(ch),
            },
    {
        match self {
            CharClass::Letter => is_letter(ch),
            CharClass::Digit => is_digit(ch),
            CharClass::Whitespace => is_whitespace(ch),
        }
    }
}

/// The length of the longest run of characters of `class` in `s` that starts
/// at `from`.
pub open spec fn run_len(s: Seq<char>, from: int, class: CharClass) -> nat
    decreases s.len() - from,
{
    if 0 <= from < s.len() && class.accepts(s[from]) {
        1 + run_len(s, from + 1, class)
    } else {
        0
    }
}

/// The keyword that `word` spells, or else the identifier with that spelling.
pub open spec fn word_token(word: Seq<char>) -> TokenView {
    if word == "fn"@ {
        TokenView::Function
    } else if word == "let"@ {
        TokenView::Let
    } else if word == "true"@ {
        TokenView::True
    } else if word == "false"@ {
        TokenView::False
    } else if word == "if"@ {
        TokenView::If
    } else if word == "else"@ {
        TokenView::Else
    } else if word == "return"@ {
        TokenView::Return
    } else {
        TokenView::Identifier(word)
    }
}

/// The token that starts at position `at` of `s`, where `at` is the end of
/// `s` or the position of a character that is not whitespace.
pub open spec fn token_at(s: Seq<char>, at: int) -> TokenView {
    if !(0 <= at < s.len()) {
        TokenView::Eof
    } else if s[at] == ',' {
        TokenView::Limiter(LimiterToken::Comma)
    } else if s[at] == ';' {
        TokenView::Limiter(LimiterToken::Semicolon)
    } else if s[at] == '(' {
        TokenView::Limiter(LimiterToken::LParen)
    } else if s[at] == ')' {
        TokenView::Limiter(LimiterToken::RParen)
    } else if s[at] == '{' {
        TokenView::Limiter(LimiterToken::LBrace)
    } else if s[at] == '}' {
        TokenView::Limiter(LimiterToken::RBrace)
    } else if s[at] == '+' {
        TokenView::Plus
    } else if s[at] == '-' {
        TokenView::Minus
    } else if s[at] == '=' {
        if at + 1 < s.len() && s[at + 1] == '=' {
            TokenView::EQ
        } else {
            TokenView::Assign
        }
    } else if s[at] == '!' {
        if at + 1 < s.len() && s[at + 1] == '=' {
            TokenView::NotEq
        } else {
            TokenView::Bang
        }
    } else if s[at] == '*' {
        TokenView::Asterisk
    } else if s[at] == '/' {
        TokenView::Slash
    } else if s[at] == '<' {
        TokenView::LT
    } else if s[at] == '>' {
        TokenView::GT
    } else if is_letter(s[at]) {
        word_token(s.subrange(at, at + run_len(s, at, CharClass::Letter)))
    } else if is_digit(s[at]) {
        TokenView::Literal(s.subrange(at, at + run_len(s, at, CharClass::Digit)))
    } else {
        TokenView::Illegal
    }
}

/// The tokens of `s` from position `from` on: whitespace is passed over, each
/// token starts where the one before it ended, and the end-of-input token
/// comes last, once.
pub open spec fn tokens_from(s: Seq<char>, from: int) -> Seq<TokenView>
    decreases s.len() - from,
    via tokens_from_decreases
{
    let at = from + run_len(s, from, CharClass::Whitespace);
    if 0 <= at < s.len() {
        seq![token_at(s, at)] + tokens_from(s, at + token_at(s, at).len())
    } else {
        seq![TokenView::Eof]
    }
}

#[via_fn]
proof fn tokens_from_decreases(s: Seq<char>, from: int) {
    let at = from + run_len(s, from, CharClass::Whitespace);
    if 0 <= at < s.len() {
        lemma_token_at_len(s, at);
    }
}

/// The tokens of the whole text `s`.
pub open spec fn tokenize(s: Seq<char>) -> Seq<TokenView> {
    tokens_from(s, 0)
}

/// A run lies inside the text, holds only characters of its class, and is
/// followed by the end of the text or by a character of another class.
pub proof fn lemma_run_len(s: Seq<char>, from: int, class: CharClass)
    requires
        0 <= from <= s.len(),
    ensures
        from + run_len(s, from, class) <= s.len(),
        forall|i: int| from <= i < from + run_len(s, from, class) ==> class.accepts(#[trigger] s[i]),
        from + run_len(s, from, class) < s.len() ==> !class.accepts(
            s[from + run_len(s, from, class)],
        ),
    decreases s.len() - from,
{
    if from < s.len() && class.accepts(s[from]) {
        lemma_run_len(s, from + 1, class);
    }
}

/// A keyword or an identifier is as long as the word that spells it.
pub proof fn lemma_word_token_len(word: Seq<char>)
    ensures
        word_token(word).len() == word.len(),
{
    reveal_strlit("fn");
    reveal_strlit("let");
    reveal_strlit("true");
    reveal_strlit("false");
    reveal_strlit("if");
    reveal_strlit("else");
    reveal_strlit("return");
}

/// A token that starts inside the text stands for at least one character and
/// ends inside the text.
pub proof fn lemma_token_at_len(s: Seq<char>, at: int)
    requires
        0 <= at < s.len(),
    ensures
        1 <= token_at(s, at).len(),
        at + token_at(s, at).len() <= s.len(),
        token_at(s, at) != TokenView::Eof,
{
    lemma_run_len(s, at, CharClass::Letter);
    lemma_run_len(s, at, CharClass::Digit);
    lemma_word_token_len(s.subrange(at, at + run_len(s, at, CharClass::Letter)));
}

/// Whether `word` is spelled as `keyword` is.
fn spells(word: &str, keyword: &str) -> (r: bool)
    ensures
        r == (word@ == keyword@),
{
    let n = word.unicode_len();
    if n != keyword.unicode_len() {
        return false;
    }
    let mut i: usize = 0;
    while i < n
        invariant
            i <= n,
            n == word@.len(),
            n == keyword@.len(),
            forall|j: int| 0 <= j < i ==> word@[j] == keyword@[j],
        decreases n - i,
    {
        if word.get_char(i) != keyword.get_char(i) {
            return false;
        }
        i += 1;
    }
    assert(word@ =~= keyword@);
    true
}

/// The keyword that `ident` spells, or else the identifier with that
/// spelling.
pub fn look_up_identifier(ident: String) -> (token: Token)
    ensures
        token@ == word_token(ident@),
{
    if spells(ident.as_str(), "fn") {
        Token::Function
    } else if spells(ident.as_str(), "let") {
        Token::Let
    } else if spells(ident.as_str(), "true") {
        Token::True
    } else if spells(ident.as_str(), "false") {
        Token::False
    } else if spells(ident.as_str(), "if") {
        Token::If
    } else if spells(ident.as_str(), "else") {
        Token::Else
    } else if spells(ident.as_str(), "return") {
        Token::Return
    } else {
        Token::Identifier(ident)
    }
}

/// A lexer over one text: it hands out the tokens of the text one by one,
/// the end-of-input token last, and nothing after it.
pub struct Lexer {
    input: String,
    /// The number of characters of `input`.
    length: usize,
    /// The position, counted in characters, of the next character to read.
    read_position: usize,
    /// The character at `read_position`, if there is one.
    ch: Option<char>,
    /// Whether the end-of-input token has been handed out.
    finished: bool,
}

impl View for Lexer {
    type V = Seq<TokenView>;

    /// The tokens that the lexer has yet to hand out, in order.
    closed spec fn view(&self) -> Seq<TokenView> {
        if self.finished {
            Seq::empty()
        } else {
            tokens_from(self.input@, self.read_position as int)
        }
    }
}

impl Lexer {
    /// The character at position `at` of the input, if there is one.
    spec fn char_at(&self, at: int) -> Option<char> {
        if 0 <= at < self.input@.len() {
            Some(self.input@[at])
        } else {
            None
        }
    }

    /// The cursor lies inside the text or at its end.
    spec fn cursor_wf(&self) -> bool {
        &&& self.length == self.input@.len()
        &&& self.read_position <= self.length
    }

    /// The invariant of a lexer: its cursor lies inside the text or at its
    /// end, and the character it holds is the one at the cursor.
    pub closed spec fn wf(&self) -> bool {
        &&& self.cursor_wf()
        &&& self.ch == self.char_at(self.read_position as int)
    }

    /// The lexer that stands at the start of `input`.
    pub closed spec fn start(input: String) -> Lexer {
        Lexer {
            input,
            length: input@.len() as usize,
            read_position: 0,
            ch: if input@.len() > 0 {
                Some(input@[0])
            } else {
                None
            },
            finished: false,
        }
    }

    /// Hands out the next token of the text; the end-of-input token once the
    /// text is used up, and `None` from then on.
    pub fn next(&mut self) -> (token: Option<Token>)
        requires
            old(self).wf(),
        ensures
            final(self).wf(),
            match token {
                Some(t) => old(self)@.len() > 0 && t@ == old(self)@[0] && final(self)@ == old(self)@.drop_first(),
                None => old(self)@.len() == 0 && final(self)@ == old(self)@,
            },
    {
        if self.finished {
            return None;
        }
        self.skip_white_spaces();
        let token: Token = match self.ch {
            None => {
                self.finished = true;
                assert(old(self)@.drop_first() =~= Seq::<TokenView>::empty());
                return Some(Token::Eof);
            },
            Some(x) => match x {
                ',' => Token::Limiter(LimiterToken::Comma),
                ';' => Token::Limiter(LimiterToken::Semicolon),
                '(' => Token::Limiter(LimiterToken::LParen),
                ')' => Token::Limiter(LimiterToken::RParen),
                '{' => Token::Limiter(LimiterToken::LBrace),
                '}' => Token::Limiter(LimiterToken::RBrace),
                '+' => Token::Plus,
                '-' => Token::Minus,
                '=' => {
                    if let Some('=') = self.peek_char_head() {
                        Token::EQ
                    } else {
                        Token::Assign
                    }
                },
                '!' => {
                    if let Some('=') = self.peek_char_head() {
                        Token::NotEq
                    } else {
                        Token::Bang
                    }
                },
                '*' => Token::Asterisk,
                '/' => Token::Slash,
                '<' => Token::LT,
                '>' => Token::GT,
                _ => {
                    if is_letter(x) {
                        look_up_identifier(self.read_identifier())
                    } else if is_digit(x) {
                        Token::Literal(self.read_number())
                    } else {
                        Token::Illegal
                    }
                },
            },
        };
        proof {
            lemma_token_at_len(self.input@, self.read_position as int);
            assert(old(self)@.drop_first() =~= tokens_from(
                self.input@,
                self.read_position + token@.len(),
            ));
        }
        self.increment_read_position(&token);
        self.read_char();
        Some(token)
    }

    /// Reads the character at the cursor.
    fn read_char(&mut self)
        requires
            old(self).cursor_wf(),
        ensures
            final(self).wf(),
            final(self).input == old(self).input,
            final(self).read_position == old(self).read_position,
            final(self).finished == old(self).finished,
            final(self).length == old(self).length,
    {
        self.ch = if self.read_position < self.length {
            Some(self.input.as_str().get_char(self.read_position))
        } else {
            None
        };
    }

    /// The character after the one at the cursor, if there is one.
    fn peek_char_head(&self) -> (next: Option<char>)
        requires
            self.cursor_wf(),
        ensures
            next == self.char_at(self.read_position + 1),
    {
        if self.read_position < self.length && self.read_position + 1 < self.length {
            Some(self.input.as_str().get_char(self.read_position + 1))
        } else {
            None
        }
    }

    /// Moves the cursor past the characters that `token` stands for.
    fn increment_read_position(&mut self, token: &Token)
        requires
            old(self).cursor_wf(),
            old(self).read_position + token@.len() <= old(self).length,
        ensures
            final(self).cursor_wf(),
            final(self).read_position == old(self).read_position + token@.len(),
            final(self).input == old(self).input,
            final(self).finished == old(self).finished,
    {
        self.read_position += token.len();
    }

    /// The position at which the run of characters of `class` that starts at
    /// the cursor ends.
    fn run_end(&self, class: CharClass) -> (end: usize)
        requires
            self.cursor_wf(),
        ensures
            end == self.read_position + run_len(self.input@, self.read_position as int, class),
            end <= self.length,
    {
        let mut end = self.read_position;
        while end < self.length && class.accepts(self.input.as_str().get_char(end))
            invariant
                self.cursor_wf(),
                self.read_position <= end <= self.length,
                self.read_position + run_len(self.input@, self.read_position as int, class) == end
                    + run_len(self.input@, end as int, class),
            decreases self.length - end,
        {
            end += 1;
        }
        end
    }

    /// The letters and underscores that start at the cursor.
    fn read_identifier(&self) -> (word: String)
        requires
            self.cursor_wf(),
        ensures
            word@ == self.input@.subrange(
                self.read_position as int,
                self.read_position + run_len(
                    self.input@,
                    self.read_position as int,
                    CharClass::Letter,
                ),
            ),
    {
        let end = self.run_end(CharClass::Letter);
        String::from_str(self.input.as_str().substring_char(self.read_position, end))
    }

    /// The digits that start at the cursor.
    fn read_number(&self) -> (digits: String)
        requires
            self.cursor_wf(),
        ensures
            digits@ == self.input@.subrange(
                self.read_position as int,
                self.read_position + run_len(
                    self.input@,
                    self.read_position as int,
                    CharClass::Digit,
                ),
            ),
    {
        let end = self.run_end(CharClass::Digit);
        String::from_str(self.input.as_str().substring_char(self.read_position, end))
    }

    /// Moves the cursor past the whitespace that starts at it.
    fn skip_white_spaces(&mut self)
        requires
            old(self).wf(),
        ensures
            final(self).wf(),
            final(self).read_position == old(self).read_position + run_len(
                old(self).input@,
                old(self).read_position as int,
                CharClass::Whitespace,
            ),
            final(self).input == old(self).input,
            final(self).finished == old(self).finished,
    {
        let end = self.run_end(CharClass::Whitespace);
        if end > self.read_position {
            self.read_position = end;
            self.read_char();
        }
    }
}

impl From<String> for Lexer {
    /// The lexer of the text `string`: it has all the tokens of the text to
    /// hand out.
    fn from(string: String) -> (lexer: Lexer)
        ensures
            lexer.wf(),
            lexer@ == tokenize(string@),
    {
        let length = string.as_str().unicode_len();
        let mut l = Lexer { input: string, length, read_position: 0, ch: None, finished: false };
        l.read_char();
        l
    }
}

impl vstd::std_specs::convert::FromSpecImpl<String> for Lexer {
    open spec fn obeys_from_spec() -> bool {
        true
    }

    open spec fn from_spec(string: String) -> Lexer {
        Lexer::start(string)
    }
}

} // verus!
