//! The parser: from tokens to the syntax tree of a script.
use vstd::prelude::*;
use crate::ast::{
    Expr, ExprView, Param, ParamView, expr_deep, exprs_deep, lemma_exprs_len, lemma_exprs_push,
    lemma_exprs_index, lemma_fields_index, lemma_fields_push, param_deep, params_deep,
    fields_deep, expr_token,
};
use crate::lexer::{Lexeme, Token, TokenView, tokens_view};
use crate::parser_spec::{
    Answer, Step, tk, tdat, skip_nl, at_eof, token_debug_spec, frame, consume, consume_ident,
    paren_scan, func_def_start, object_start, set_field, macro_use, lemma_skip_nl, expression,
    func_def, block, leading_includes, script, main_task,
};
use crate::text::{debug_str, file_stem, path_file_stem, push_decimal, push_str};
use crate::types::TokenData;

verus! {

/// Whether `o` starts with the answers `r`.
pub open spec fn extends(o: Seq<Answer>, r: Seq<Answer>) -> bool {
    r.len() <= o.len() && forall|i: int| 0 <= i < r.len() ==> o[i] == #[trigger] r[i]
}

/// The plain value of what the macro resolver gives back.
pub open spec fn result_view(r: Result<Expr, String>) -> Result<ExprView, Seq<char>> {
    match r {
        Ok(e) => Ok(expr_deep(e)),
        Err(m) => Err(m@),
    }
}

/// The answer `a` is one the resolver `f` can give: for the path `a.0` it may
/// give back `a.1`.
pub open spec fn answered<F: Fn(String) -> Result<Expr, String>>(f: F, a: Answer) -> bool {
    exists|x: String, r: Result<Expr, String>|
        x@ == a.0 && call_ensures(f, (x,), r) && result_view(r) == a.1
}

/// The tokens a parser can take: they end with `EOF`.
pub open spec fn tokens_ok(t: Seq<Lexeme>) -> bool {
    &&& t.len() > 0
    &&& t[t.len() - 1].0 is EOF
    &&& t.len() < usize::MAX
}

/// Whether the resolver `f` never resolves a path that follows an `@` in
/// the tokens `t` and has no file stem to name the include by.
pub open spec fn resolves_only_stems<F: Fn(String) -> Result<Expr, String>>(f: F, t: Seq<Lexeme>) -> bool {
    forall|x: String, r: Result<Expr, String>, i: int|
        #![trigger call_ensures(f, (x,), r), t[i + 1]]
        call_ensures(f, (x,), r) && 0 <= i && i + 1 < t.len() && t[i].0 is At && t[i + 1].0
            == TokenView::String(x@) && file_stem(x@) is None ==> r is Err
}

/// A parsing step of an expression, as plain values.
pub open spec fn expr_out(r: Result<Expr, String>, p: int, k: nat) -> Step<ExprView> {
    match r {
        Ok(e) => (Ok((expr_deep(e), p)), k),
        Err(m) => (Err(m@), k),
    }
}

/// A parsing step of a list of expressions, as plain values.
pub open spec fn exprs_out(r: Result<Vec<Expr>, String>, p: int, k: nat) -> Step<Seq<ExprView>> {
    match r {
        Ok(v) => (Ok((exprs_deep(v@), p)), k),
        Err(m) => (Err(m@), k),
    }
}

/// A parsing step of a parameter, as plain values.
pub open spec fn param_out(r: Result<Param, String>, p: int, k: nat) -> Step<ParamView> {
    match r {
        Ok(v) => (Ok((param_deep(v), p)), k),
        Err(m) => (Err(m@), k),
    }
}

/// A parsing step of a parameter list, as plain values.
pub open spec fn params_out(r: Result<Vec<Param>, String>, p: int, k: nat) -> Step<Seq<ParamView>> {
    match r {
        Ok(v) => (Ok((params_deep(v@), p)), k),
        Err(m) => (Err(m@), k),
    }
}

/// A parsing step of the fields of an object literal, as plain values.
pub open spec fn fields_out(r: Result<Vec<(String, Expr)>, String>, p: int, k: nat) -> Step<
    Seq<(Seq<char>, ExprView)>,
> {
    match r {
        Ok(v) => (Ok((fields_deep(v@), p)), k),
        Err(m) => (Err(m@), k),
    }
}

/// Whether the keys of a field list are distinct.
pub open spec fn keys_unique(fs: Seq<(Seq<char>, ExprView)>) -> bool {
    forall|i: int, j: int| 0 <= i < j < fs.len() ==> fs[i].0 != fs[j].0
}

/// The parser: the tokens, the index of the current one, the file name for
/// messages, and the macro resolver that `@ "path"` calls.
pub struct Parser<F> {
    tokens: Vec<(Token, TokenData)>,
    pos: usize,
    filename: String,
    macro_resolver: F,
    answers: Ghost<Seq<Answer>>,
}


/// Sets the field `key` of an object literal to `v`: in place when the key is
/// there, appended otherwise.
pub fn set_field_exec(fields: &mut Vec<(String, Expr)>, key: String, v: Expr)
    requires
        keys_unique(fields_deep(old(fields)@)),
    ensures
        fields_deep(final(fields)@) == set_field(fields_deep(old(fields)@), key@, expr_deep(v)),
        keys_unique(fields_deep(final(fields)@)),
{
    let ghost before = fields_deep(fields@);
    let ghost kv = key@;
    proof {
        lemma_fields_index(fields@);
    }
    let mut i: usize = 0;
    while i < fields.len()
        invariant
            before == fields_deep(fields@),
            before == fields_deep(old(fields)@),
            before.len() == fields@.len(),
            i <= fields@.len(),
            kv == key@,
            forall|j: int| 0 <= j < i ==> before[j].0 != kv,
            keys_unique(before),
            forall|j: int|
                0 <= j < fields@.len() ==> #[trigger] before[j] == (fields@[j].0@, expr_deep(
                    fields@[j].1,
                )),
        decreases fields.len() - i,
    {
        if fields[i].0 == key {
            let ghost old_fields = fields@;
            let ghost item = (key, v);
            fields.set(i, (key, v));
            proof {
                lemma_fields_index(fields@);
                lemma_fields_index(old_fields);
                assert(before[i as int].0 == kv);
                let c = choose|j: int| 0 <= j < before.len() && before[j].0 == kv;
                assert(c == i) by {
                    if c != i {
                        if c < i {
                        } else {
                            assert(before[i as int].0 != before[c].0);
                        }
                    }
                }
                assert(fields_deep(fields@) =~= before.update(i as int, (kv, expr_deep(v))));
                assert(exists|j: int| 0 <= j < before.len() && before[j].0 == kv);
                assert(set_field(before, kv, expr_deep(v)) == before.update(c, (kv, expr_deep(v))));
                assert forall|a: int, b: int| 0 <= a < b < fields_deep(fields@).len() implies fields_deep(fields@)[a].0 != fields_deep(fields@)[b].0 by {
                    assert(before[a].0 != before[b].0);
                }
            }
            return;
        }
        i = i + 1;
    }
    let ghost old_fields = fields@;
    fields.push((key, v));
    proof {
        lemma_fields_push(old_fields, (key, v));
        assert(fields@ == old_fields.push((key, v)));
    }
}

/// The `Debug` rendering of a token; a number shows its literal text.
pub fn token_debug(t: &Token) -> (r: String)
    ensures
        r@ == token_debug_spec(t@),
{
    match t {
        Token::Identifier(s) => {
            let mut r = "Identifier(".to_owned();
            let d = debug_str(s.as_str());
            push_str(&mut r, d.as_str());
            push_str(&mut r, ")");
            r
        },
        Token::Number(s) => {
            let mut r = "Number(".to_owned();
            push_str(&mut r, s.as_str());
            push_str(&mut r, ")");
            r
        },
        Token::String(s) => {
            let mut r = "String(".to_owned();
            let d = debug_str(s.as_str());
            push_str(&mut r, d.as_str());
            push_str(&mut r, ")");
            r
        },
        Token::Assign => "Assign".to_owned(),
        Token::Question => "Question".to_owned(),
        Token::Colon => "Colon".to_owned(),
        Token::Rescue => "Rescue".to_owned(),
        Token::At => "At".to_owned(),
        Token::Hash => "Hash".to_owned(),
        Token::Not => "Not".to_owned(),
        Token::Caret => "Caret".to_owned(),
        Token::Dot => "Dot".to_owned(),
        Token::Comma => "Comma".to_owned(),
        Token::LParen => "LParen".to_owned(),
        Token::RParen => "RParen".to_owned(),
        Token::LBrace => "LBrace".to_owned(),
        Token::RBrace => "RBrace".to_owned(),
        Token::LBracket => "LBracket".to_owned(),
        Token::RBracket => "RBracket".to_owned(),
        Token::Newline => "Newline".to_owned(),
        Token::EOF => "EOF".to_owned(),
    }
}

/// Whether two tokens are the same.
pub fn token_eq(a: &Token, b: &Token) -> (r: bool)
    ensures
        r == (a@ == b@),
{
    match (a, b) {
        (Token::Identifier(x), Token::Identifier(y)) => *x == *y,
        (Token::Number(x), Token::Number(y)) => *x == *y,
        (Token::String(x), Token::String(y)) => *x == *y,
        (Token::Assign, Token::Assign) => true,
        (Token::Question, Token::Question) => true,
        (Token::Colon, Token::Colon) => true,
        (Token::Rescue, Token::Rescue) => true,
        (Token::At, Token::At) => true,
        (Token::Hash, Token::Hash) => true,
        (Token::Not, Token::Not) => true,
        (Token::Caret, Token::Caret) => true,
        (Token::Dot, Token::Dot) => true,
        (Token::Comma, Token::Comma) => true,
        (Token::LParen, Token::LParen) => true,
        (Token::RParen, Token::RParen) => true,
        (Token::LBrace, Token::LBrace) => true,
        (Token::RBrace, Token::RBrace) => true,
        (Token::LBracket, Token::LBracket) => true,
        (Token::RBracket, Token::RBracket) => true,
        (Token::Newline, Token::Newline) => true,
        (Token::EOF, Token::EOF) => true,
        _ => false,
    }
}

/// Whether the parser can take `tokens`: they end with `EOF`.
pub fn tokens_parseable(tokens: &Vec<(Token, TokenData)>) -> (r: bool)
    ensures
        r == tokens_ok(tokens_view(tokens@)),
{
    let n = tokens.len();
    if n == 0 || n == usize::MAX {
        return false;
    }
    match tokens[n - 1].0 {
        Token::EOF => true,
        _ => false,
    }
}

impl<F: Fn(String) -> Result<Expr, String>> Parser<F> {
    /// The tokens.
    pub closed spec fn toks(&self) -> Seq<Lexeme> {
        tokens_view(self.tokens@)
    }

    /// The index of the current token.
    pub closed spec fn at(&self) -> int {
        self.pos as int
    }

    /// The file name used in messages.
    pub closed spec fn file(&self) -> Seq<char> {
        self.filename@
    }

    /// The macro resolver.
    pub closed spec fn resolver(&self) -> F {
        self.macro_resolver
    }

    /// The resolver's answers so far, in the order they were asked for.
    pub closed spec fn answers(&self) -> Seq<Answer> {
        self.answers@
    }

    /// A parser in a state it can go on from.
    pub open spec fn wf(&self) -> bool {
        &&& tokens_ok(self.toks())
        &&& 0 <= self.at() < self.toks().len()
        &&& forall|x: String| call_requires(self.resolver(), (x,))
        &&& forall|i: int|
            0 <= i < self.answers().len() ==> answered(
                self.resolver(),
                #[trigger] self.answers()[i],
            )
    }

    /// `other` is this parser later on: same tokens, file and resolver, and
    /// the answers only grew.
    pub open spec fn later(&self, other: Self) -> bool {
        &&& other.toks() == self.toks()
        &&& other.file() == self.file()
        &&& other.resolver() == self.resolver()
        &&& extends(other.answers(), self.answers())
    }

    /// A parser at the first token, with no answers yet.
    pub fn new(tokens: Vec<(Token, TokenData)>, filename: String, macro_resolver: F) -> (r: Self)
        ensures
            r.toks() == tokens_view(tokens@),
            r.at() == 0,
            r.file() == filename@,
            r.resolver() == macro_resolver,
            r.answers() == Seq::<Answer>::empty(),
    {
        Parser { tokens, pos: 0, filename, macro_resolver, answers: Ghost(Seq::empty()) }
    }

    proof fn lemma_tok(&self)
        requires
            self.wf(),
        ensures
            self.toks()[self.at()].0 == self.tokens@[self.at()].0@,
            self.toks()[self.at()].1 == self.tokens@[self.at()].1@,
            tk(self.toks(), self.at()) == self.tokens@[self.at()].0@,
            !(tk(self.toks(), self.at()) is EOF) ==> self.at() + 1 < self.toks().len(),
            self.toks().len() == self.tokens@.len(),
    {
    }

    /// Whether the token at `p` is a line break.
    pub(crate) fn newline_at(&self, p: usize) -> (r: bool)
        requires
            self.wf(),
        ensures
            r == (p < self.toks().len() && self.toks()[p as int].0 is Newline),
    {
        p < self.tokens.len() && match self.tokens[p].0 {
            Token::Newline => true,
            _ => false,
        }
    }

    /// The index of the current token.
    pub(crate) fn position(&self) -> (r: usize)
        ensures
            r == self.at(),
    {
        self.pos
    }

    /// Moves past the current token, which is not the last.
    pub(crate) fn advance(&mut self)
        requires
            old(self).wf(),
            !(tk(old(self).toks(), old(self).at()) is EOF),
        ensures
            final(self).wf(),
            old(self).later(*final(self)),
            final(self).answers() == old(self).answers(),
            final(self).at() == old(self).at() + 1,
    {
        proof {
            self.lemma_tok();
        }
        self.pos = self.pos + 1;
        assert(self.answers() == old(self).answers());
        assert(self.resolver() == old(self).resolver());
    }

    /// The current token.
    pub(crate) fn peek(&self) -> (r: &Token)
        requires
            self.wf(),
        ensures
            r@ == tk(self.toks(), self.at()),
            !(r@ is EOF) ==> self.at() + 1 < self.toks().len(),
    {
        proof {
            self.lemma_tok();
        }
        &self.tokens[self.pos].0
    }

    /// The position of the current token.
    pub(crate) fn peek_td(&self) -> (r: TokenData)
        requires
            self.wf(),
        ensures
            r@ == tdat(self.toks(), self.at()),
    {
        proof {
            self.lemma_tok();
        }
        self.tokens[self.pos].1.duplicate()
    }

    /// Moves past line breaks.
    pub(crate) fn skip_newlines(&mut self)
        requires
            old(self).wf(),
        ensures
            final(self).wf(),
            old(self).later(*final(self)),
            final(self).answers() == old(self).answers(),
            final(self).at() == skip_nl(old(self).toks(), old(self).at()),
            old(self).at() <= final(self).at(),
    {
        proof {
            lemma_skip_nl(self.toks(), self.at());
        }
        while self.newline_at(self.pos)
            invariant
                self.wf(),
                old(self).later(*self),
                self.answers() == old(self).answers(),
                skip_nl(self.toks(), self.at()) == skip_nl(old(self).toks(), old(self).at()),
            decreases self.tokens.len() - self.pos,
        {
            self.advance();
        }
    }

    /// Whether the current token ends the list.
    pub(crate) fn is_eof(&self) -> (r: bool)
        requires
            self.wf(),
        ensures
            r == at_eof(self.toks(), self.at()),
    {
        proof {
            self.lemma_tok();
        }
        self.pos >= self.tokens.len() || match self.tokens[self.pos].0 {
            Token::EOF => true,
            _ => false,
        }
    }

    /// A syntax error message, framed with the file and the current position.
    pub(crate) fn error(&self, msg: &str) -> (r: String)
        requires
            self.wf(),
        ensures
            r@ == frame(self.toks(), self.at(), self.file(), msg@),
    {
        let td = self.peek_td();
        let mut r = "ERROR: ".to_owned();
        push_str(&mut r, msg);
        push_str(&mut r, " in ");
        push_str(&mut r, self.filename.as_str());
        push_str(&mut r, " at\n\t");
        push_decimal(&mut r, td.line);
        push_str(&mut r, ":\t");
        push_str(&mut r, td.line_text.as_str());
        r
    }

    /// Takes the token `token` at the current index.
    pub(crate) fn consume(&mut self, token: Token) -> (r: Result<TokenData, String>)
        requires
            old(self).wf(),
            !(token@ is EOF),
        ensures
            final(self).wf(),
            old(self).later(*final(self)),
            final(self).answers() == old(self).answers(),
            match (r, consume(old(self).toks(), old(self).file(), old(self).at(), token@)) {
                (Ok(td), Ok((sd, sp))) => td@ == sd && final(self).at() == sp,
                (Err(m), Err(sm)) => m@ == sm && final(self).at() == old(self).at(),
                _ => false,
            },
    {
        proof {
            self.lemma_tok();
        }
        if token_eq(&self.tokens[self.pos].0, &token) {
            let td = self.tokens[self.pos].1.duplicate();
            self.advance();
            Ok(td)
        } else {
            let mut msg = "Expected ".to_owned();
            let a = token_debug(&token);
            let b = token_debug(&self.tokens[self.pos].0);
            push_str(&mut msg, a.as_str());
            push_str(&mut msg, ", found ");
            push_str(&mut msg, b.as_str());
            Err(self.error(msg.as_str()))
        }
    }

    /// Takes an identifier at the current index, giving its name.
    pub(crate) fn consume_identifier(&mut self) -> (r: Result<String, String>)
        requires
            old(self).wf(),
        ensures
            final(self).wf(),
            old(self).later(*final(self)),
            final(self).answers() == old(self).answers(),
            match (r, consume_ident(old(self).toks(), old(self).file(), old(self).at())) {
                (Ok(id), Ok((sid, sp))) => id@ == sid && final(self).at() == sp,
                (Err(m), Err(sm)) => m@ == sm && final(self).at() == old(self).at(),
                _ => false,
            },
    {
        proof {
            self.lemma_tok();
        }
        match &self.tokens[self.pos].0 {
            Token::Identifier(id) => {
                let id = id.clone();
                self.advance();
                Ok(id)
            },
            _ => {
                let mut msg = "Expected identifier, found ".to_owned();
                let b = token_debug(&self.tokens[self.pos].0);
                push_str(&mut msg, b.as_str());
                Err(self.error(msg.as_str()))
            },
        }
    }

    /// Whether the `(` at the current index opens a task definition: its
    /// matching `)` is followed, after line breaks, by `{`.
    pub(crate) fn is_func_def_start(&self) -> (r: bool)
        requires
            self.wf(),
        ensures
            r == func_def_start(self.toks(), self.at()),
    {
        let ghost t = self.toks();
        let mut p = self.pos + 1;
        let mut depth: usize = 1;
        while p < self.tokens.len() && depth > 0
            invariant
                self.wf(),
                t == self.toks(),
                t.len() == self.tokens@.len(),
                self.at() < p <= self.tokens.len(),
                depth <= p - self.at(),
                paren_scan(t, p as int, depth as int) == paren_scan(t, self.at() + 1, 1),
            decreases self.tokens.len() - p,
        {
            match self.tokens[p].0 {
                Token::LParen => {
                    depth = depth + 1;
                },
                Token::RParen => {
                    depth = depth - 1;
                },
                _ => {},
            }
            p = p + 1;
        }
        proof {
            lemma_skip_nl(t, p as int);
        }
        while self.newline_at(p)
            invariant
                self.wf(),
                t == self.toks(),
                t.len() == self.tokens@.len(),
                p <= self.tokens.len(),
                skip_nl(t, p as int) == skip_nl(t, paren_scan(t, self.at() + 1, 1)),
            decreases self.tokens.len() - p,
        {
            p = p + 1;
        }
        p < self.tokens.len() && match self.tokens[p].0 {
            Token::LBrace => true,
            _ => false,
        }
    }

    /// Whether the `{` at the current index opens an object literal: `}` or an
    /// identifier and `:` follow, after line breaks.
    pub(crate) fn is_object_literal(&self) -> (r: bool)
        requires
            self.wf(),
        ensures
            r == object_start(self.toks(), self.at()),
    {
        let ghost t = self.toks();
        let mut p = self.pos + 1;
        proof {
            lemma_skip_nl(t, p as int);
        }
        while self.newline_at(p)
            invariant
                self.wf(),
                t == self.toks(),
                t.len() == self.tokens@.len(),
                p <= self.tokens.len(),
                skip_nl(t, p as int) == skip_nl(t, self.at() + 1),
            decreases self.tokens.len() - p,
        {
            p = p + 1;
        }
        if p >= self.tokens.len() {
            return false;
        }
        match self.tokens[p].0 {
            Token::RBrace => {
                return true;
            },
            _ => {},
        }
        match &self.tokens[p].0 {
            Token::Identifier(_) => {
                let mut next = p + 1;
                proof {
                    lemma_skip_nl(t, next as int);
                }
                while self.newline_at(next)
                    invariant
                        self.wf(),
                        t == self.toks(),
                        t.len() == self.tokens@.len(),
                        p < next <= self.tokens.len(),
                        skip_nl(t, next as int) == skip_nl(t, p + 1),
                    decreases self.tokens.len() - next,
                {
                    next = next + 1;
                }
                next < self.tokens.len() && match self.tokens[next].0 {
                    Token::Colon => true,
                    _ => false,
                }
            },
            _ => false,
        }
    }

    /// Whether the current token is `kind`.
    pub(crate) fn cur_is(&self, kind: Token) -> (r: bool)
        requires
            self.wf(),
        ensures
            r == (tk(self.toks(), self.at()) == kind@),
    {
        proof {
            self.lemma_tok();
        }
        token_eq(&self.tokens[self.pos].0, &kind)
    }

    /// Goes back to the index `p`.
    pub(crate) fn reset_to(&mut self, p: usize)
        requires
            old(self).wf(),
            p < old(self).toks().len(),
        ensures
            final(self).wf(),
            old(self).later(*final(self)),
            final(self).answers() == old(self).answers(),
            final(self).at() == p,
    {
        proof {
            self.lemma_tok();
        }
        self.pos = p;
        assert(self.answers() == old(self).answers());
        assert(self.resolver() == old(self).resolver());
    }

    /// An `@ "path"` macro: asks the resolver for the script at `path` and
    /// binds it to the stem of the path.
    pub(crate) fn parse_include(&mut self) -> (r: Result<Expr, String>)
        requires
            old(self).wf(),
        ensures
            final(self).wf(),
            old(self).later(*final(self)),
            old(self).at() <= final(self).at(),
            r is Ok ==> old(self).at() < final(self).at(),
            forall|o: Seq<Answer>|
                extends(o, final(self).answers()) ==> #[trigger] macro_use(
                    old(self).toks(),
                    old(self).file(),
                    o,
                    old(self).at(),
                    old(self).answers().len(),
                ) == expr_out(r, final(self).at(), final(self).answers().len()),
        decreases old(self).toks().len() - old(self).at(), 1int,
    {
        let ghost t = self.toks();
        let ghost f = self.file();
        let ghost p0 = self.at();
        let ghost k0 = self.answers().len();
        let td = match self.consume(Token::At) {
            Ok(td) => td,
            Err(e) => {
                return Err(e);
            },
        };
        proof {
            self.lemma_tok();
        }
        let raw_path = match &self.tokens[self.pos].0 {
            Token::String(s) => s.clone(),
            _ => {
                return Err(self.error("Syntax Error: The '@' macro strictly requires a string literal path (e.g., @ \"utils\"). Identifier shorthand is not allowed."));
            },
        };
        self.advance();
        let arg = raw_path.clone();
        let ghost argv = arg;
        let answer = (self.macro_resolver)(arg);
        let ghost entry: Answer = (raw_path@, result_view(answer));
        let ghost prev = self.answers();
        self.answers = Ghost(self.answers@.push(entry));
        proof {
            assert(answered(self.resolver(), entry));
            assert forall|i: int| 0 <= i < self.answers().len() implies answered(
                self.resolver(),
                #[trigger] self.answers()[i],
            ) by {
                if i < prev.len() {
                    assert(self.answers()[i] == prev[i]);
                }
            }
        }
        let r = match answer {
            Err(e) => Err(e),
            Ok(ast) => match path_file_stem(raw_path.as_str()) {
                Some(stem) => Ok(Expr::Assign(stem, Box::new(ast), td)),
                None => Err(String::new()),
            },
        };
        proof {
            assert forall|o: Seq<Answer>| extends(o, self.answers()) implies #[trigger] macro_use(
                t,
                f,
                o,
                p0,
                k0,
            ) == expr_out(r, self.at(), self.answers().len()) by {
                assert(o[k0 as int] == self.answers()[k0 as int]);
                assert(self.answers()[k0 as int] == entry);
            }
        }
        r
    }

    /// The includes that open a script, each followed by line breaks.
    fn parse_includes(&mut self) -> (r: Result<Vec<Expr>, String>)
        requires
            old(self).wf(),
        ensures
            final(self).wf(),
            old(self).later(*final(self)),
            old(self).at() <= final(self).at(),
            forall|o: Seq<Answer>|
                extends(o, final(self).answers()) ==> #[trigger] leading_includes(
                    old(self).toks(),
                    old(self).file(),
                    o,
                    Seq::empty(), old(self).at(),
                    old(self).answers().len(),
                ) == exprs_out(r, final(self).at(), final(self).answers().len()),
    {
        let ghost t = self.toks();
        let ghost f = self.file();
        let ghost p0 = self.at();
        let ghost k0 = self.answers().len();
        let mut stmts: Vec<Expr> = Vec::new();
        proof {
            lemma_exprs_len(Seq::<Expr>::empty());
            assert(exprs_deep(Seq::<Expr>::empty()) =~= Seq::<ExprView>::empty());
        }
        while !self.is_eof() && self.cur_is(Token::At)
            invariant
                self.wf(),
                old(self).later(*self),
                t == self.toks(),
                f == self.file(),
                t == old(self).toks(),
                f == old(self).file(),
                p0 == old(self).at(),
                k0 == old(self).answers().len(),
                p0 <= self.at(),
                forall|o: Seq<Answer>|
                    extends(o, self.answers()) ==> #[trigger] leading_includes(t, f, o, Seq::empty(), p0, k0)
                        == leading_includes(t, f, o, exprs_deep(stmts@), self.at(), self.answers().len()),
            decreases self.toks().len() - self.at(),
        {
            let ghost p = self.at();
            let ghost k = self.answers().len();
            let ghost acc = exprs_deep(stmts@);
            let ghost ap = self.answers();
            let res = self.parse_include();
            let s = match res {
                Ok(s) => s,
                Err(e) => {
                    let r = Err(e);
                    proof {
                        assert forall|o: Seq<Answer>| extends(o, self.answers()) implies #[trigger] leading_includes(t, f, o, Seq::empty(), p0, k0) == exprs_out(r, self.at(), self.answers().len()) by {
                            assert(extends(o, ap));
                            assert(macro_use(t, f, o, p, k) == expr_out(res, self.at(), self.answers().len()));
                            assert(leading_includes(t, f, o, acc, p, k) == exprs_out(r, self.at(), self.answers().len()));
                        }
                    }
                    return r;
                },
            };
            let ghost sv = expr_deep(s);
            let ghost q = self.at();
            let ghost prev = stmts@;
            stmts.push(s);
            self.skip_newlines();
            proof {
                lemma_exprs_push(prev, s);
                lemma_skip_nl(t, q);
                assert forall|o: Seq<Answer>| extends(o, self.answers()) implies #[trigger] leading_includes(t, f, o, Seq::empty(), p0, k0)
                    == leading_includes(t, f, o, exprs_deep(stmts@), self.at(), self.answers().len()) by {
                    assert(extends(o, ap));
                    assert(macro_use(t, f, o, p, k) == (Ok::<(ExprView, int), Seq<char>>((sv, q)), self.answers().len()));
                    assert(leading_includes(t, f, o, acc, p, k) == leading_includes(t, f, o, acc.push(sv), self.at(), self.answers().len()));
                }
            }
        }
        let r = Ok(stmts);
        proof {
            assert forall|o: Seq<Answer>| extends(o, self.answers()) implies #[trigger] leading_includes(t, f, o, Seq::empty(), p0, k0)
                == exprs_out(r, self.at(), self.answers().len()) by {
                assert(leading_includes(t, f, o, exprs_deep(stmts@), self.at(), self.answers().len()) == exprs_out(r, self.at(), self.answers().len()));
            }
        }
        r
    }

    /// The one task of a script: a task definition or a block.
    fn parse_main_task(&mut self) -> (r: Result<Expr, String>)
        requires
            old(self).wf(),
        ensures
            final(self).wf(),
            old(self).later(*final(self)),
            old(self).at() <= final(self).at(),
            forall|o: Seq<Answer>|
                extends(o, final(self).answers()) ==> #[trigger] main_task(
                    old(self).toks(),
                    old(self).file(),
                    o,
                    old(self).at(),
                    old(self).answers().len(),
                ) == expr_out(r, final(self).at(), final(self).answers().len()),
    {
        let ghost t = self.toks();
        let ghost f = self.file();
        let ghost p0 = self.at();
        let ghost k0 = self.answers().len();
        if self.cur_is(Token::LParen) && self.is_func_def_start() {
            let r = self.parse_func_def();
            proof {
                assert forall|o: Seq<Answer>| extends(o, self.answers()) implies #[trigger] main_task(t, f, o, p0, k0) == expr_out(r, self.at(), self.answers().len()) by {
                    assert(func_def(t, f, o, p0, k0) == expr_out(r, self.at(), self.answers().len()));
                }
            }
            r
        } else if self.cur_is(Token::LBrace) {
            let r = self.parse_block();
            proof {
                assert forall|o: Seq<Answer>| extends(o, self.answers()) implies #[trigger] main_task(t, f, o, p0, k0) == expr_out(r, self.at(), self.answers().len()) by {
                    assert(block(t, f, o, p0, k0) == expr_out(r, self.at(), self.answers().len()));
                }
            }
            r
        } else {
            let r = Err("Syntax Error: Expected main task definition (a closure or a block).".to_owned());
            proof {
                assert forall|o: Seq<Answer>| extends(o, self.answers()) implies #[trigger] main_task(t, f, o, p0, k0) == expr_out(r, self.at(), self.answers().len()) by {
                }
            }
            r
        }
    }

    /// Parses a whole script: `@` includes, then exactly one task (a task
    /// definition or a block), then nothing but line breaks. With includes,
    /// the result is a block of the includes and the task.
    ///
    /// The resolver must not resolve a path of an include of the script that
    /// has no file stem: the include would have no name.
    pub fn parse(&mut self) -> (r: Result<Expr, String>)
        requires
            old(self).wf(),
            resolves_only_stems(old(self).resolver(), old(self).toks()),
        ensures
            final(self).wf(),
            old(self).later(*final(self)),
            forall|o: Seq<Answer>|
                extends(o, final(self).answers()) ==> #[trigger] script(
                    old(self).toks(),
                    old(self).file(),
                    o,
                    old(self).at(),
                    old(self).answers().len(),
                ) == (result_view(r), final(self).answers().len()),
    {
        let ghost t = self.toks();
        let ghost f = self.file();
        let ghost p0 = self.at();
        let ghost k0 = self.answers().len();
        self.skip_newlines();
        let ghost q0 = self.at();
        let res = self.parse_includes();
        let mut stmts = match res {
            Ok(s) => s,
            Err(e) => {
                let r = Err(e);
                proof {
                    assert forall|o: Seq<Answer>| extends(o, self.answers()) implies #[trigger] script(t, f, o, p0, k0) == (result_view(r), self.answers().len()) by {
                        assert(leading_includes(t, f, o, Seq::empty(), q0, k0) == exprs_out(res, self.at(), self.answers().len()));
                    }
                }
                return r;
            },
        };
        let ghost sv = exprs_deep(stmts@);
        let ghost p1 = self.at();
        let ghost a1 = self.answers();
        if self.is_eof() {
            let r = Err("Syntax Error: Script is empty.".to_owned());
            proof {
                assert forall|o: Seq<Answer>| extends(o, self.answers()) implies #[trigger] script(t, f, o, p0, k0) == (result_view(r), self.answers().len()) by {
                    assert(leading_includes(t, f, o, Seq::empty(), q0, k0) == (Ok::<(Seq<ExprView>, int), Seq<char>>((sv, p1)), a1.len()));
                }
            }
            return r;
        }
        let res2 = self.parse_main_task();
        let main = match res2 {
            Ok(m) => m,
            Err(e) => {
                let r = Err(e);
                proof {
                    assert forall|o: Seq<Answer>| extends(o, self.answers()) implies #[trigger] script(t, f, o, p0, k0) == (result_view(r), self.answers().len()) by {
                        assert(extends(o, a1));
                        assert(leading_includes(t, f, o, Seq::empty(), q0, k0) == (Ok::<(Seq<ExprView>, int), Seq<char>>((sv, p1)), a1.len()));
                        assert(main_task(t, f, o, p1, a1.len()) == expr_out(res2, self.at(), self.answers().len()));
                    }
                }
                return r;
            },
        };
        let ghost mv = expr_deep(main);
        let ghost p2 = self.at();
        let ghost a2 = self.answers();
        proof {
            assert forall|o: Seq<Answer>| extends(o, a2) implies #[trigger] script(t, f, o, p0, k0) == (if !at_eof(t, skip_nl(t, p2)) {
                (Err::<ExprView, Seq<char>>("Syntax Error: Unexpected code outside of main task. A Hank script must contain exactly one Task definition."@), a2.len())
            } else if sv.len() == 0 {
                (Ok::<ExprView, Seq<char>>(mv), a2.len())
            } else {
                (Ok::<ExprView, Seq<char>>(ExprView::Block(sv.push(mv), expr_token(sv.push(mv)[0]))), a2.len())
            }) by {
                assert(extends(o, a1));
                assert(leading_includes(t, f, o, Seq::empty(), q0, k0) == (Ok::<(Seq<ExprView>, int), Seq<char>>((sv, p1)), a1.len()));
                assert(main_task(t, f, o, p1, a1.len()) == (Ok::<(ExprView, int), Seq<char>>((mv, p2)), a2.len()));
            }
        }
        self.skip_newlines();
        if !self.is_eof() {
            let r = Err("Syntax Error: Unexpected code outside of main task. A Hank script must contain exactly one Task definition.".to_owned());
            return r;
        }
        if stmts.len() == 0 {
            proof {
                lemma_exprs_len(stmts@);
            }
            return Ok(main);
        }
        let ghost prev = stmts@;
        stmts.push(main);
        let td_root = stmts[0].token();
        proof {
            lemma_exprs_push(prev, main);
            lemma_exprs_index(stmts@);
            lemma_exprs_len(prev);
        }
        Ok(Expr::Block(stmts, td_root))
    }
}

} // verus!
