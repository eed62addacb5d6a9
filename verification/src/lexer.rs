//! The lexer: from source text to a list of tokens, each with its position.
use vstd::prelude::*;
use crate::text::{
    chars_of, is_alphabetic, is_alphanumeric, is_digit_char, is_whitespace, push_char,
    string_from_range, unicode_alphabetic, unicode_alphanumeric, unicode_whitespace,
};
use crate::types::{TokenData, TokenDataView};

verus! {

/// A token of Hank source text. A number keeps the text of its literal.
#[derive(Clone, Debug, PartialEq)]
pub enum Token {
    Identifier(String),
    Number(String),
    String(String),
    Assign,
    Question,
    Colon,
    Rescue,
    At,
    Hash,
    Not,
    Caret,
    Dot,
    Comma,
    LParen,
    RParen,
    LBrace,
    RBrace,
    LBracket,
    RBracket,
    Newline,
    EOF,
}

/// The mathematical content of a [`Token`].
pub enum TokenView {
    Identifier(Seq<char>),
    Number(Seq<char>),
    String(Seq<char>),
    Assign,
    Question,
    Colon,
    Rescue,
    At,
    Hash,
    Not,
    Caret,
    Dot,
    Comma,
    LParen,
    RParen,
    LBrace,
    RBrace,
    LBracket,
    RBracket,
    Newline,
    EOF,
}

impl View for Token {
    type V = TokenView;

    open spec fn view(&self) -> TokenView {
        match self {
            Token::Identifier(s) => TokenView::Identifier(s@),
            Token::Number(s) => TokenView::Number(s@),
            Token::String(s) => TokenView::String(s@),
            Token::Assign => TokenView::Assign,
            Token::Question => TokenView::Question,
            Token::Colon => TokenView::Colon,
            Token::Rescue => TokenView::Rescue,
            Token::At => TokenView::At,
            Token::Hash => TokenView::Hash,
            Token::Not => TokenView::Not,
            Token::Caret => TokenView::Caret,
            Token::Dot => TokenView::Dot,
            Token::Comma => TokenView::Comma,
            Token::LParen => TokenView::LParen,
            Token::RParen => TokenView::RParen,
            Token::LBrace => TokenView::LBrace,
            Token::RBrace => TokenView::RBrace,
            Token::LBracket => TokenView::LBracket,
            Token::RBracket => TokenView::RBracket,
            Token::Newline => TokenView::Newline,
            Token::EOF => TokenView::EOF,
        }
    }
}

/// A token with its position, as plain values.
pub type Lexeme = (TokenView, TokenDataView);

/// The plain values of a token list.
pub open spec fn tokens_view(v: Seq<(Token, TokenData)>) -> Seq<Lexeme> {
    v.map_values(|p: (Token, TokenData)| (p.0@, p.1@))
}

/// The index of the first line feed at or after `p`, or the end of the text.
pub open spec fn line_end(s: Seq<char>, p: int) -> int
    decreases s.len() - p,
{
    if p >= s.len() || s[p] == '\n' {
        p
    } else {
        line_end(s, p + 1)
    }
}

/// The end of a run of digits and dots that starts at `p`.
pub open spec fn digits_end(s: Seq<char>, p: int) -> int
    decreases s.len() - p,
{
    if 0 <= p < s.len() && (is_digit_char(s[p]) || s[p] == '.') {
        digits_end(s, p + 1)
    } else {
        p
    }
}

/// The end of a number literal that starts at `p`: an optional minus sign, then
/// digits and dots.
pub open spec fn number_end(s: Seq<char>, p: int) -> int {
    if s[p] == '-' {
        digits_end(s, p + 1)
    } else {
        digits_end(s, p)
    }
}

/// The end of a run of alphanumeric characters and underscores that starts at `p`.
pub open spec fn word_end(s: Seq<char>, p: int) -> int
    decreases s.len() - p,
{
    if 0 <= p < s.len() && (unicode_alphanumeric(s[p]) || s[p] == '_') {
        word_end(s, p + 1)
    } else {
        p
    }
}

/// The character that an escape `\c` stands for.
pub open spec fn unescape(c: char) -> char {
    if c == 'n' {
        '\n'
    } else if c == 't' {
        '\t'
    } else {
        c
    }
}

/// The value of a string literal body that starts at `p`, and the index where
/// it stops: at the closing quote, or at the end of the text when it is missing.
pub open spec fn string_body(s: Seq<char>, p: int, quote: char) -> (Seq<char>, int)
    decreases s.len() - p,
{
    if p < 0 || p >= s.len() || s[p] == quote {
        (Seq::empty(), p)
    } else if s[p] == '\\' {
        if p + 1 >= s.len() {
            (Seq::empty(), p + 1)
        } else {
            let (rest, q) = string_body(s, p + 2, quote);
            (seq![unescape(s[p + 1])] + rest, q)
        }
    } else {
        let (rest, q) = string_body(s, p + 1, quote);
        (seq![s[p]] + rest, q)
    }
}

/// The token of a one-character punctuation mark.
pub open spec fn punct_token(c: char) -> Option<TokenView> {
    if c == '=' {
        Some(TokenView::Assign)
    } else if c == '?' {
        Some(TokenView::Question)
    } else if c == ':' {
        Some(TokenView::Colon)
    } else if c == '~' {
        Some(TokenView::Rescue)
    } else if c == '@' {
        Some(TokenView::At)
    } else if c == '#' {
        Some(TokenView::Hash)
    } else if c == '!' {
        Some(TokenView::Not)
    } else if c == '^' {
        Some(TokenView::Caret)
    } else if c == '.' {
        Some(TokenView::Dot)
    } else if c == ',' {
        Some(TokenView::Comma)
    } else if c == '(' {
        Some(TokenView::LParen)
    } else if c == ')' {
        Some(TokenView::RParen)
    } else if c == '{' {
        Some(TokenView::LBrace)
    } else if c == '}' {
        Some(TokenView::RBrace)
    } else if c == '[' {
        Some(TokenView::LBracket)
    } else if c == ']' {
        Some(TokenView::RBracket)
    } else {
        None
    }
}

/// The position of a token read with the lexer at `pos`: the line number and
/// the text from the start of the line to the next line feed.
pub open spec fn position(s: Seq<char>, pos: int, line: nat, line_start: int) -> TokenDataView {
    TokenDataView { line, line_text: s.subrange(line_start, line_end(s, pos)) }
}

/// Whether a number literal starts at `pos`: a digit, or a minus sign and a digit.
pub open spec fn starts_number(s: Seq<char>, pos: int) -> bool {
    ||| is_digit_char(s[pos])
    ||| (s[pos] == '-' && pos + 1 < s.len() && is_digit_char(s[pos + 1]))
}

/// Whether an identifier starts with `c`.
pub open spec fn starts_identifier(c: char) -> bool {
    unicode_alphabetic(c) || c == '_'
}

/// One lexeme followed by the rest of a lexing result.
pub open spec fn prepend(x: Lexeme, rest: Option<Seq<Lexeme>>) -> Option<Seq<Lexeme>> {
    match rest {
        Some(r) => Some(seq![x] + r),
        None => None,
    }
}

/// A list of lexemes followed by the rest of a lexing result.
pub open spec fn prepend_all(xs: Seq<Lexeme>, rest: Option<Seq<Lexeme>>) -> Option<Seq<Lexeme>> {
    match rest {
        Some(r) => Some(xs + r),
        None => None,
    }
}

/// The tokens of `s` from index `pos` on, with the current line number and the
/// index where the current line starts. `None` where a string literal is left
/// open: the lexer cannot then give the position of its token.
pub open spec fn lex(s: Seq<char>, pos: int, line: nat, line_start: int) -> Option<Seq<Lexeme>>
    decreases s.len() - pos,
{
    if pos < 0 || pos >= s.len() {
        Some(seq![(TokenView::EOF, position(s, pos, line, line_start))])
    } else {
        let c = s[pos];
        if unicode_whitespace(c) {
            if c == '\n' {
                prepend(
                    (TokenView::Newline, position(s, pos, line, line_start)),
                    lex(s, pos + 1, line + 1, pos + 1),
                )
            } else {
                lex(s, pos + 1, line, line_start)
            }
        } else if c == '/' && pos + 1 < s.len() && s[pos + 1] == '/' {
            proof {
                lemma_line_end(s, pos);
            }
            lex(s, line_end(s, pos), line, line_start)
        } else if starts_number(s, pos) {
            let e = number_end(s, pos);
            proof {
                lemma_digits_end(s, pos);
                lemma_digits_end(s, pos + 1);
            }
            prepend(
                (TokenView::Number(s.subrange(pos, e)), position(s, e, line, line_start)),
                lex(s, e, line, line_start),
            )
        } else if starts_identifier(c) {
            let e = word_end(s, pos + 1);
            proof {
                lemma_word_end(s, pos + 1);
            }
            prepend(
                (TokenView::Identifier(s.subrange(pos, e)), position(s, e, line, line_start)),
                lex(s, e, line, line_start),
            )
        } else if c == '"' || c == '\'' {
            let (v, q) = string_body(s, pos + 1, c);
            proof {
                lemma_string_body(s, pos + 1, c);
            }
            if q >= s.len() {
                None
            } else {
                prepend(
                    (TokenView::String(v), position(s, q + 1, line, line_start)),
                    lex(s, q + 1, line, line_start),
                )
            }
        } else {
            match punct_token(c) {
                Some(t) => prepend(
                    (t, position(s, pos, line, line_start)),
                    lex(s, pos + 1, line, line_start),
                ),
                None => lex(s, pos + 1, line, line_start),
            }
        }
    }
}

/// The tokens of a whole text, or `None` where a string literal is left open.
pub open spec fn tokenize_spec(s: Seq<char>) -> Option<Seq<Lexeme>> {
    lex(s, 0, 1, 0)
}

/// The number of line breaks in a list of lexemes.
pub open spec fn newline_count(t: Seq<Lexeme>) -> nat
    decreases t.len(),
{
    if t.len() == 0 {
        0
    } else {
        (if t[0].0 is Newline {
            1nat
        } else {
            0nat
        }) + newline_count(t.drop_first())
    }
}

/// What a lexing result from line `line` on satisfies: it ends with `EOF`,
/// nothing else is `EOF`, and each token lies on `line` plus the line breaks
/// before it.
pub open spec fn well_lined(t: Seq<Lexeme>, line: nat) -> bool {
    &&& t.len() > 0
    &&& t[t.len() - 1].0 is EOF
    &&& forall|i: int| 0 <= i < t.len() - 1 ==> !((#[trigger] t[i]).0 is EOF)
    &&& forall|i: int| 0 <= i < t.len() ==> (#[trigger] t[i]).1.line == line + newline_count(t.take(i))
}

proof fn lemma_prepend_well_lined(x: Lexeme, r: Seq<Lexeme>, line: nat)
    requires
        !(x.0 is EOF),
        x.1.line == line,
        well_lined(r, if x.0 is Newline { line + 1 } else { line }),
    ensures
        well_lined(seq![x] + r, line),
{
    let t = seq![x] + r;
    let l2: nat = if x.0 is Newline { line + 1 } else { line };
    assert(t[t.len() - 1] == r[r.len() - 1]);
    assert forall|i: int| 0 <= i < t.len() - 1 implies !((#[trigger] t[i]).0 is EOF) by {
        if i > 0 {
            assert(t[i] == r[i - 1]);
        }
    }
    assert forall|i: int| 0 <= i < t.len() implies (#[trigger] t[i]).1.line == line + newline_count(
        t.take(i),
    ) by {
        if i == 0 {
            assert(t.take(0) =~= Seq::<Lexeme>::empty());
        } else {
            assert(t[i] == r[i - 1]);
            assert(t.take(i)[0] == x);
            assert(t.take(i).drop_first() =~= r.take(i - 1));
        }
    }
}

/// The lexing result from any state, when there is one, is well lined; and
/// there is one when no quote character follows.
proof fn lemma_lex_shape(s: Seq<char>, pos: int, line: nat, line_start: int)
    ensures
        lex(s, pos, line, line_start) matches Some(t) ==> well_lined(t, line),
        (forall|i: int| pos <= i < s.len() ==> s[i] != '"' && s[i] != '\'') ==> lex(
            s,
            pos,
            line,
            line_start,
        ) is Some,
    decreases s.len() - pos,
{
    if pos < 0 || pos >= s.len() {
        let t = seq![(TokenView::EOF, position(s, pos, line, line_start))];
        assert(t.take(0) =~= Seq::<Lexeme>::empty());
    } else {
        let c = s[pos];
        if unicode_whitespace(c) {
            if c == '\n' {
                lemma_lex_shape(s, pos + 1, line + 1, pos + 1);
                if let Some(r) = lex(s, pos + 1, line + 1, pos + 1) {
                    lemma_prepend_well_lined(
                        (TokenView::Newline, position(s, pos, line, line_start)),
                        r,
                        line,
                    );
                }
            } else {
                lemma_lex_shape(s, pos + 1, line, line_start);
            }
        } else if c == '/' && pos + 1 < s.len() && s[pos + 1] == '/' {
            lemma_line_end(s, pos);
            lemma_lex_shape(s, line_end(s, pos), line, line_start);
        } else if starts_number(s, pos) {
            lemma_digits_end(s, pos);
            lemma_digits_end(s, pos + 1);
            let e = number_end(s, pos);
            lemma_lex_shape(s, e, line, line_start);
            if let Some(r) = lex(s, e, line, line_start) {
                lemma_prepend_well_lined(
                    (TokenView::Number(s.subrange(pos, e)), position(s, e, line, line_start)),
                    r,
                    line,
                );
            }
        } else if starts_identifier(c) {
            lemma_word_end(s, pos + 1);
            let e = word_end(s, pos + 1);
            lemma_lex_shape(s, e, line, line_start);
            if let Some(r) = lex(s, e, line, line_start) {
                lemma_prepend_well_lined(
                    (TokenView::Identifier(s.subrange(pos, e)), position(s, e, line, line_start)),
                    r,
                    line,
                );
            }
        } else if c == '"' || c == '\'' {
            lemma_string_body(s, pos + 1, c);
            let (v, q) = string_body(s, pos + 1, c);
            if q < s.len() {
                lemma_lex_shape(s, q + 1, line, line_start);
                if let Some(r) = lex(s, q + 1, line, line_start) {
                    lemma_prepend_well_lined(
                        (TokenView::String(v), position(s, q + 1, line, line_start)),
                        r,
                        line,
                    );
                }
            }
        } else {
            lemma_lex_shape(s, pos + 1, line, line_start);
            if let Some(tok) = punct_token(c) {
                if let Some(r) = lex(s, pos + 1, line, line_start) {
                    lemma_prepend_well_lined((tok, position(s, pos, line, line_start)), r, line);
                }
            }
        }
    }
}

/// The tokens of a text end with `EOF`, no other token is `EOF`, and each
/// token's line is one more than the number of line breaks before it.
pub proof fn law_tokens_well_lined(s: Seq<char>)
    requires
        tokenize_spec(s) is Some,
    ensures
        well_lined(tokenize_spec(s)->0, 1),
{
    lemma_lex_shape(s, 0, 1, 0);
}

/// A text with no quote character always lexes: only an open string literal
/// stops the lexer.
pub proof fn law_lexes_without_quotes(s: Seq<char>)
    requires
        forall|i: int| 0 <= i < s.len() ==> s[i] != '"' && s[i] != '\'',
    ensures
        tokenize_spec(s) is Some,
{
    lemma_lex_shape(s, 0, 1, 0);
}

proof fn lemma_lex_count(s: Seq<char>, pos: int, line: nat, line_start: int)
    requires
        0 <= pos <= s.len(),
    ensures
        lex(s, pos, line, line_start) matches Some(t) ==> t.len() <= s.len() - pos + 1,
    decreases s.len() - pos,
{
    if pos < s.len() {
        let c = s[pos];
        if unicode_whitespace(c) {
            if c == '\n' {
                lemma_lex_count(s, pos + 1, line + 1, pos + 1);
            } else {
                lemma_lex_count(s, pos + 1, line, line_start);
            }
        } else if c == '/' && pos + 1 < s.len() && s[pos + 1] == '/' {
            lemma_line_end(s, pos);
            lemma_lex_count(s, line_end(s, pos), line, line_start);
        } else if starts_number(s, pos) {
            lemma_digits_end(s, pos);
            lemma_digits_end(s, pos + 1);
            lemma_lex_count(s, number_end(s, pos), line, line_start);
        } else if starts_identifier(c) {
            lemma_word_end(s, pos + 1);
            lemma_lex_count(s, word_end(s, pos + 1), line, line_start);
        } else if c == '"' || c == '\'' {
            lemma_string_body(s, pos + 1, c);
            let q = string_body(s, pos + 1, c).1;
            if q < s.len() {
                lemma_lex_count(s, q + 1, line, line_start);
            }
        } else {
            lemma_lex_count(s, pos + 1, line, line_start);
        }
    }
}

/// A text gives at most one token per character, and the end token.
pub proof fn law_token_count_bound(s: Seq<char>)
    requires
        tokenize_spec(s) is Some,
    ensures
        tokenize_spec(s)->0.len() <= s.len() + 1,
{
    lemma_lex_count(s, 0, 1, 0);
}

pub proof fn lemma_line_end(s: Seq<char>, p: int)
    requires
        0 <= p <= s.len(),
    ensures
        p <= line_end(s, p) <= s.len(),
        p < s.len() && s[p] != '\n' ==> p < line_end(s, p),
        line_end(s, p) < s.len() ==> s[line_end(s, p)] == '\n',
        forall|k: int| p <= k < line_end(s, p) ==> s[k] != '\n',
    decreases s.len() - p,
{
    if p < s.len() && s[p] != '\n' {
        lemma_line_end(s, p + 1);
    }
}

pub proof fn lemma_digits_end(s: Seq<char>, p: int)
    requires
        0 <= p,
    ensures
        p <= digits_end(s, p),
        p <= s.len() ==> digits_end(s, p) <= s.len(),
        0 <= p < s.len() && (is_digit_char(s[p]) || s[p] == '.') ==> p < digits_end(s, p),
    decreases s.len() - p,
{
    if 0 <= p < s.len() && (is_digit_char(s[p]) || s[p] == '.') {
        lemma_digits_end(s, p + 1);
    }
}

pub proof fn lemma_word_end(s: Seq<char>, p: int)
    requires
        0 <= p,
    ensures
        p <= word_end(s, p),
        p <= s.len() ==> word_end(s, p) <= s.len(),
    decreases s.len() - p,
{
    if 0 <= p < s.len() && (unicode_alphanumeric(s[p]) || s[p] == '_') {
        lemma_word_end(s, p + 1);
    }
}

pub proof fn lemma_string_body(s: Seq<char>, p: int, quote: char)
    requires
        0 <= p,
    ensures
        p <= string_body(s, p, quote).1,
        p <= s.len() ==> string_body(s, p, quote).1 <= s.len(),
        string_body(s, p, quote).1 < s.len() ==> s[string_body(s, p, quote).1] == quote,
    decreases s.len() - p,
{
    if p < 0 || p >= s.len() || s[p] == quote {
    } else if s[p] == '\\' {
        if p + 1 >= s.len() {
        } else {
            lemma_string_body(s, p + 2, quote);
        }
    } else {
        lemma_string_body(s, p + 1, quote);
    }
}

/// The lexer's state: the text, the current index, the current line number and
/// the index where the current line starts.
pub struct Lexer {
    input: Vec<char>,
    pos: usize,
    line: usize,
    line_start: usize,
}

/// The mathematical content of a [`Lexer`].
pub struct LexerView {
    pub input: Seq<char>,
    pub pos: int,
    pub line: nat,
    pub line_start: int,
}

impl View for Lexer {
    type V = LexerView;

    closed spec fn view(&self) -> LexerView {
        LexerView {
            input: self.input@,
            pos: self.pos as int,
            line: self.line as nat,
            line_start: self.line_start as int,
        }
    }
}

impl LexerView {
    /// A state the lexer can stand in: the index within the text, the line
    /// start not after it, and room for the line number to grow.
    pub open spec fn wf(self) -> bool {
        &&& 0 <= self.line_start <= self.pos <= self.input.len()
        &&& self.line + self.input.len() - self.pos < usize::MAX
        &&& self.input.len() < usize::MAX
    }

    /// The tokens that the rest of the text gives from this state.
    pub open spec fn remaining_tokens(self) -> Option<Seq<Lexeme>> {
        lex(self.input, self.pos, self.line, self.line_start)
    }
}

fn punct(c: char) -> (r: Option<Token>)
    ensures
        match r {
            Some(t) => punct_token(c) == Some(t@),
            None => punct_token(c) is None,
        },
{
    match c {
        '=' => Some(Token::Assign),
        '?' => Some(Token::Question),
        ':' => Some(Token::Colon),
        '~' => Some(Token::Rescue),
        '@' => Some(Token::At),
        '#' => Some(Token::Hash),
        '!' => Some(Token::Not),
        '^' => Some(Token::Caret),
        '.' => Some(Token::Dot),
        ',' => Some(Token::Comma),
        '(' => Some(Token::LParen),
        ')' => Some(Token::RParen),
        '{' => Some(Token::LBrace),
        '}' => Some(Token::RBrace),
        '[' => Some(Token::LBracket),
        ']' => Some(Token::RBracket),
        _ => None,
    }
}

fn is_digit(c: char) -> (r: bool)
    ensures
        r == is_digit_char(c),
{
    '0' <= c && c <= '9'
}

impl Lexer {
    /// A lexer at the start of `input`, on line 1.
    pub fn new(input: &str) -> (r: Lexer)
        requires
            input@.len() < usize::MAX - 1,
        ensures
            r@.input == input@,
            r@.pos == 0,
            r@.line == 1,
            r@.line_start == 0,
            r@.wf(),
    {
        Lexer { input: chars_of(input), pos: 0, line: 1, line_start: 0 }
    }

    /// Reads the rest of the text into tokens, each with its line number and
    /// line text, ending with `EOF`; each token's line is the lexer's line
    /// plus the line breaks before it. Whitespace other than line feeds,
    /// `//` comments and unknown characters give no token. The text must not
    /// leave a string literal open.
    pub fn tokenize(&mut self) -> (tokens: Vec<(Token, TokenData)>)
        requires
            old(self)@.wf(),
            old(self)@.remaining_tokens() is Some,
        ensures
            Some(tokens_view(tokens@)) == old(self)@.remaining_tokens(),
            well_lined(tokens_view(tokens@), old(self)@.line),
            final(self)@.input == old(self)@.input,
    {
        match self.try_tokenize() {
            Some(tokens) => tokens,
            None => Vec::new(),
        }
    }

    /// Reads the rest of the text into tokens as [`Lexer::tokenize`] does;
    /// `None` when a string literal is left open.
    pub fn try_tokenize(&mut self) -> (r: Option<Vec<(Token, TokenData)>>)
        requires
            old(self)@.wf(),
        ensures
            match r {
                Some(tokens) => Some(tokens_view(tokens@)) == old(self)@.remaining_tokens() && well_lined(
                    tokens_view(tokens@),
                    old(self)@.line,
                ),
                None => old(self)@.remaining_tokens() is None,
            },
            final(self)@.input == old(self)@.input,
    {
        let mut tokens: Vec<(Token, TokenData)> = Vec::new();
        let ghost s = self@.input;
        let ghost total = self@.remaining_tokens();
        proof {
            lemma_lex_shape(s, self@.pos, self@.line, self@.line_start);
        }
        while self.pos < self.input.len()
            invariant
                self@.wf(),
                self@.input == s,
                total == old(self)@.remaining_tokens(),
                total matches Some(t) ==> well_lined(t, old(self)@.line),
                s == old(self)@.input,
                total == prepend_all(tokens_view(tokens@), self@.remaining_tokens()),
            decreases self.input.len() - self.pos,
        {
            let c = self.input[self.pos];
            let ghost before = tokens_view(tokens@);
            if is_whitespace(c) {
                if c == '\n' {
                    let td = self.td();
                    tokens.push((Token::Newline, td));
                    self.line = self.line + 1;
                    self.pos = self.pos + 1;
                    self.line_start = self.pos;
                    proof {
                        assert(tokens_view(tokens@) =~= before.push((TokenView::Newline, td@)));
                        assert(before.push((TokenView::Newline, td@)) + self@.remaining_tokens()->0
                            =~= before + (seq![(TokenView::Newline, td@)]
                            + self@.remaining_tokens()->0));
                    }
                } else {
                    self.pos = self.pos + 1;
                }
                continue;
            }
            if c == '/' && self.peek() == Some('/') {
                proof {
                    lemma_line_end(s, self@.pos);
                }
                self.skip_comment();
                continue;
            }
            let next_digit = match self.peek() {
                Some(d) => is_digit(d),
                None => false,
            };
            if (c == '-' && next_digit) || is_digit(c) {
                proof {
                    lemma_digits_end(s, self@.pos);
                    lemma_digits_end(s, self@.pos + 1);
                }
                let t = self.read_number();
                let td = self.td();
                tokens.push((t, td));
                proof {
                    assert(tokens_view(tokens@) =~= before.push((t@, td@)));
                    assert(before.push((t@, td@)) + self@.remaining_tokens()->0 =~= before + (seq![
                        (t@, td@),
                    ] + self@.remaining_tokens()->0));
                }
                continue;
            }
            if is_alphabetic(c) || c == '_' {
                proof {
                    lemma_word_end(s, self@.pos + 1);
                }
                let t = self.read_identifier();
                let td = self.td();
                tokens.push((t, td));
                proof {
                    assert(tokens_view(tokens@) =~= before.push((t@, td@)));
                    assert(before.push((t@, td@)) + self@.remaining_tokens()->0 =~= before + (seq![
                        (t@, td@),
                    ] + self@.remaining_tokens()->0));
                }
                continue;
            }
            if c == '"' || c == '\'' {
                proof {
                    lemma_string_body(s, self@.pos + 1, c);
                }
                let t = self.read_string(c);
                if self.pos > self.input.len() {
                    return None;
                }
                let td = self.td();
                tokens.push((t, td));
                proof {
                    assert(tokens_view(tokens@) =~= before.push((t@, td@)));
                    assert(before.push((t@, td@)) + self@.remaining_tokens()->0 =~= before + (seq![
                        (t@, td@),
                    ] + self@.remaining_tokens()->0));
                }
                continue;
            }
            match punct(c) {
                Some(t) => {
                    let td = self.td();
                    tokens.push((t, td));
                    self.pos = self.pos + 1;
                    proof {
                        assert(tokens_view(tokens@) =~= before.push((t@, td@)));
                        assert(before.push((t@, td@)) + self@.remaining_tokens()->0 =~= before + (
                        seq![(t@, td@)] + self@.remaining_tokens()->0));
                    }
                },
                None => {
                    self.pos = self.pos + 1;
                },
            }
        }
        let ghost before = tokens_view(tokens@);
        let td = self.td();
        tokens.push((Token::EOF, td));
        assert(tokens_view(tokens@) =~= before.push((TokenView::EOF, td@)));
        assert(before.push((TokenView::EOF, td@)) =~= before + seq![(TokenView::EOF, td@)]);
        Some(tokens)
    }

    /// Moves to the line feed that ends the current line, or to the end.
    fn skip_comment(&mut self)
        requires
            old(self)@.wf(),
        ensures
            final(self)@ == (LexerView { pos: line_end(old(self)@.input, old(self)@.pos), ..old(self)@ }),
            final(self)@.wf(),
    {
        proof {
            lemma_line_end(self@.input, self@.pos);
        }
        while self.pos < self.input.len() && self.input[self.pos] != '\n'
            invariant
                old(self)@.wf(),
                self@.input == old(self)@.input,
                self@.line == old(self)@.line,
                self@.line_start == old(self)@.line_start,
                old(self)@.pos <= self@.pos <= self@.input.len(),
                line_end(self@.input, self@.pos) == line_end(old(self)@.input, old(self)@.pos),
            decreases self.input.len() - self.pos,
        {
            self.pos = self.pos + 1;
        }
    }

    /// Reads a number literal: an optional minus sign, then digits and dots.
    fn read_number(&mut self) -> (t: Token)
        requires
            old(self)@.wf(),
            old(self)@.pos < old(self)@.input.len(),
            starts_number(old(self)@.input, old(self)@.pos),
        ensures
            final(self)@ == (LexerView { pos: number_end(old(self)@.input, old(self)@.pos), ..old(self)@ }),
            final(self)@.pos > old(self)@.pos,
            final(self)@.wf(),
            t@ == TokenView::Number(old(self)@.input.subrange(old(self)@.pos, final(self)@.pos)),
    {
        let start = self.pos;
        proof {
            lemma_digits_end(self@.input, self@.pos);
            lemma_digits_end(self@.input, self@.pos + 1);
        }
        if self.input[self.pos] == '-' {
            self.pos = self.pos + 1;
        }
        while self.pos < self.input.len() && (is_digit(self.input[self.pos]) || self.input[self.pos]
            == '.')
            invariant
                old(self)@.wf(),
                self@.input == old(self)@.input,
                self@.line == old(self)@.line,
                self@.line_start == old(self)@.line_start,
                start == old(self)@.pos,
                start <= self@.pos <= self@.input.len(),
                digits_end(self@.input, self@.pos) == number_end(old(self)@.input, old(self)@.pos),
            decreases self.input.len() - self.pos,
        {
            self.pos = self.pos + 1;
        }
        Token::Number(string_from_range(&self.input, start, self.pos))
    }

    /// Reads an identifier: its first character, then alphanumeric characters
    /// and underscores.
    fn read_identifier(&mut self) -> (t: Token)
        requires
            old(self)@.wf(),
            old(self)@.pos < old(self)@.input.len(),
        ensures
            final(self)@ == (LexerView { pos: word_end(old(self)@.input, old(self)@.pos + 1), ..old(self)@ }),
            final(self)@.wf(),
            t@ == TokenView::Identifier(old(self)@.input.subrange(old(self)@.pos, final(self)@.pos)),
    {
        let start = self.pos;
        self.pos = self.pos + 1;
        proof {
            lemma_word_end(self@.input, self@.pos);
        }
        while self.pos < self.input.len() && (is_alphanumeric(self.input[self.pos]) || self.input[self.pos]
            == '_')
            invariant
                old(self)@.wf(),
                self@.input == old(self)@.input,
                self@.line == old(self)@.line,
                self@.line_start == old(self)@.line_start,
                start == old(self)@.pos,
                start < self@.pos <= self@.input.len(),
                word_end(self@.input, self@.pos) == word_end(old(self)@.input, old(self)@.pos + 1),
            decreases self.input.len() - self.pos,
        {
            self.pos = self.pos + 1;
        }
        Token::Identifier(string_from_range(&self.input, start, self.pos))
    }

    /// Reads a string literal that opens with `quote`, undoing the escapes
    /// `\n`, `\t` and `\c`; stops one past the closing quote.
    fn read_string(&mut self, quote: char) -> (t: Token)
        requires
            old(self)@.wf(),
            old(self)@.pos < old(self)@.input.len(),
        ensures
            final(self)@ == (LexerView {
                pos: string_body(old(self)@.input, old(self)@.pos + 1, quote).1 + 1,
                ..old(self)@
            }),
            t@ == TokenView::String(string_body(old(self)@.input, old(self)@.pos + 1, quote).0),
    {
        self.pos = self.pos + 1;
        let ghost s = self@.input;
        let ghost first = self@.pos;
        let mut val = String::new();
        proof {
            lemma_string_body(s, first, quote);
        }
        while self.pos < self.input.len() && self.input[self.pos] != quote
            invariant
                old(self)@.wf(),
                self@.input == s,
                s == old(self)@.input,
                first == old(self)@.pos + 1,
                self@.line == old(self)@.line,
                self@.line_start == old(self)@.line_start,
                first <= self@.pos <= s.len(),
                string_body(s, first, quote) == (val@ + string_body(s, self@.pos, quote).0,
                string_body(s, self@.pos, quote).1),
            ensures
                self@.input == s,
                self@.line == old(self)@.line,
                self@.line_start == old(self)@.line_start,
                string_body(s, first, quote) == (val@, self@.pos),
            decreases self.input.len() - self.pos,
        {
            let ghost p = self@.pos;
            let ghost oldval = val@;
            if self.input[self.pos] == '\\' {
                self.pos = self.pos + 1;
                if self.pos >= self.input.len() {
                    assert(string_body(s, p, quote) == (Seq::<char>::empty(), p + 1));
                    assert(val@ + Seq::<char>::empty() =~= val@);
                    break;
                }
                let e = self.input[self.pos];
                let u = if e == 'n' {
                    '\n'
                } else if e == 't' {
                    '\t'
                } else {
                    e
                };
                push_char(&mut val, u);
                proof {
                    let (rest, q) = string_body(s, p + 2, quote);
                    assert(string_body(s, p, quote) == (seq![unescape(s[p + 1])] + rest, q));
                    assert(oldval + (seq![unescape(s[p + 1])] + rest) =~= val@ + rest);
                }
            } else {
                push_char(&mut val, self.input[self.pos]);
                proof {
                    let (rest, q) = string_body(s, p + 1, quote);
                    assert(string_body(s, p, quote) == (seq![s[p]] + rest, q));
                    assert(oldval + (seq![s[p]] + rest) =~= val@ + rest);
                }
            }
            self.pos = self.pos + 1;
        }
        self.pos = self.pos + 1;
        Token::String(val)
    }

    /// The character after the current one, if any.
    fn peek(&self) -> (r: Option<char>)
        requires
            self@.wf(),
            self@.pos < self@.input.len(),
        ensures
            r == (if self@.pos + 1 < self@.input.len() {
                Some(self@.input[self@.pos + 1])
            } else {
                None
            }),
    {
        if self.pos + 1 < self.input.len() {
            Some(self.input[self.pos + 1])
        } else {
            None
        }
    }

    /// The position of a token read at the current index.
    fn td(&self) -> (r: TokenData)
        requires
            self@.wf(),
        ensures
            r@ == position(self@.input, self@.pos, self@.line, self@.line_start),
    {
        TokenData { line: self.line, line_text: self.get_current_line_text() }
    }

    /// The text from the start of the current line to the next line feed.
    fn get_current_line_text(&self) -> (r: String)
        requires
            self@.wf(),
        ensures
            r@ == self@.input.subrange(self@.line_start, line_end(self@.input, self@.pos)),
    {
        let mut end = self.pos;
        while end < self.input.len() && self.input[end] != '\n'
            invariant
                self@.wf(),
                self@.pos <= end <= self@.input.len(),
                line_end(self@.input, end as int) == line_end(self@.input, self@.pos),
            decreases self.input.len() - end,
        {
            end = end + 1;
        }
        string_from_range(&self.input, self.line_start, end)
    }
}

} // verus!
