//! What the parser computes, written as functions on the plain values of the
//! tokens.
//!
//! Each function takes the tokens `t`, the file name `f`, the answers `o` of the
//! macro resolver (the path it was asked for and what it gave back, in the order
//! of the requests), the index `p` of the current token and the number `k` of
//! answers used so far. It gives the result with the index after it, and the new
//! number of answers used.
//!
//! Loops that go on after a nested parse carry a guard `q > p`: a nested parse
//! that succeeds always moves past at least one token (the parser's functions
//! state it), so the guard only bounds the recursion.
use vstd::prelude::*;
use crate::ast::{ExprView, LiteralView, ParamView, expr_token};
use crate::lexer::{Lexeme, TokenView};
use crate::text::{debug_text, decimal, file_stem};
use crate::types::TokenDataView;

verus! {

/// One answer of the macro resolver: the path asked for and the result.
pub type Answer = (Seq<char>, Result<ExprView, Seq<char>>);

/// The outcome of a parsing step: a value and the index after it, or an error
/// message; and the number of resolver answers used.
pub type Step<T> = (Result<(T, int), Seq<char>>, nat);

/// The token at index `i`; `EOF` outside the list.
pub open spec fn tk(t: Seq<Lexeme>, i: int) -> TokenView {
    if 0 <= i < t.len() {
        t[i].0
    } else {
        TokenView::EOF
    }
}

/// The position of the token at index `i`.
pub open spec fn tdat(t: Seq<Lexeme>, i: int) -> TokenDataView {
    if 0 <= i < t.len() {
        t[i].1
    } else {
        TokenDataView { line: 0, line_text: Seq::empty() }
    }
}

/// The first index at or after `p` that does not hold a line break.
pub open spec fn skip_nl(t: Seq<Lexeme>, p: int) -> int
    decreases t.len() - p,
{
    if 0 <= p < t.len() && t[p].0 is Newline {
        skip_nl(t, p + 1)
    } else {
        p
    }
}

/// Whether the parser stands at the end of the tokens.
pub open spec fn at_eof(t: Seq<Lexeme>, p: int) -> bool {
    p >= t.len() || tk(t, p) is EOF
}

/// The `Debug` rendering of a token; a number shows its literal text.
pub open spec fn token_debug_spec(tv: TokenView) -> Seq<char> {
    match tv {
        TokenView::Identifier(s) => "Identifier("@ + debug_text(s) + ")"@,
        TokenView::Number(s) => "Number("@ + s + ")"@,
        TokenView::String(s) => "String("@ + debug_text(s) + ")"@,
        TokenView::Assign => "Assign"@,
        TokenView::Question => "Question"@,
        TokenView::Colon => "Colon"@,
        TokenView::Rescue => "Rescue"@,
        TokenView::At => "At"@,
        TokenView::Hash => "Hash"@,
        TokenView::Not => "Not"@,
        TokenView::Caret => "Caret"@,
        TokenView::Dot => "Dot"@,
        TokenView::Comma => "Comma"@,
        TokenView::LParen => "LParen"@,
        TokenView::RParen => "RParen"@,
        TokenView::LBrace => "LBrace"@,
        TokenView::RBrace => "RBrace"@,
        TokenView::LBracket => "LBracket"@,
        TokenView::RBracket => "RBracket"@,
        TokenView::Newline => "Newline"@,
        TokenView::EOF => "EOF"@,
    }
}

/// A syntax error message, framed with the file and the position of the token
/// at `p`.
pub open spec fn frame(t: Seq<Lexeme>, p: int, f: Seq<char>, msg: Seq<char>) -> Seq<char> {
    "ERROR: "@ + msg + " in "@ + f + " at\n\t"@ + decimal(tdat(t, p).line) + ":\t"@ + tdat(
        t,
        p,
    ).line_text
}

/// The message of the `@` macro without a string path.
pub open spec fn macro_msg() -> Seq<char> {
    "Syntax Error: The '@' macro strictly requires a string literal path (e.g., @ \"utils\"). Identifier shorthand is not allowed."@
}

/// Takes the token `kind` at `p`, giving its position.
pub open spec fn consume(t: Seq<Lexeme>, f: Seq<char>, p: int, kind: TokenView) -> Result<
    (TokenDataView, int),
    Seq<char>,
> {
    if tk(t, p) == kind {
        Ok((tdat(t, p), p + 1))
    } else {
        Err(
            frame(
                t,
                p,
                f,
                "Expected "@ + token_debug_spec(kind) + ", found "@ + token_debug_spec(tk(t, p)),
            ),
        )
    }
}

/// Takes an identifier at `p`, giving its name.
pub open spec fn consume_ident(t: Seq<Lexeme>, f: Seq<char>, p: int) -> Result<
    (Seq<char>, int),
    Seq<char>,
> {
    match tk(t, p) {
        TokenView::Identifier(id) => Ok((id, p + 1)),
        _ => Err(frame(t, p, f, "Expected identifier, found "@ + token_debug_spec(tk(t, p)))),
    }
}

/// The index after a balanced run of parentheses, starting at depth `depth`.
pub open spec fn paren_scan(t: Seq<Lexeme>, q: int, depth: int) -> int
    decreases t.len() - q,
{
    if 0 <= q < t.len() && depth > 0 {
        let d = if t[q].0 is LParen {
            depth + 1
        } else if t[q].0 is RParen {
            depth - 1
        } else {
            depth
        };
        paren_scan(t, q + 1, d)
    } else {
        q
    }
}

/// Whether the `(` at `p` opens a task definition: its matching `)` is
/// followed, after line breaks, by `{`.
pub open spec fn func_def_start(t: Seq<Lexeme>, p: int) -> bool {
    let q = skip_nl(t, paren_scan(t, p + 1, 1));
    q < t.len() && tk(t, q) is LBrace
}

/// Whether the `{` at `p` opens an object literal: it is followed, after line
/// breaks, by `}` or by an identifier and `:`.
pub open spec fn object_start(t: Seq<Lexeme>, p: int) -> bool {
    let q = skip_nl(t, p + 1);
    if q >= t.len() {
        false
    } else if tk(t, q) is RBrace {
        true
    } else if tk(t, q) is Identifier {
        let n = skip_nl(t, q + 1);
        n < t.len() && tk(t, n) is Colon
    } else {
        false
    }
}

/// A field list with `key` set to `v`: in place when the key is there,
/// appended otherwise.
pub open spec fn set_field(fs: Seq<(Seq<char>, ExprView)>, key: Seq<char>, v: ExprView) -> Seq<
    (Seq<char>, ExprView),
> {
    if exists|i: int| 0 <= i < fs.len() && fs[i].0 == key {
        let i = choose|i: int| 0 <= i < fs.len() && fs[i].0 == key;
        fs.update(i, (key, v))
    } else {
        fs.push((key, v))
    }
}

/// The `@` macro at `p`: the resolver's `k`-th answer bound to the stem of the
/// path.
pub open spec fn macro_use(t: Seq<Lexeme>, f: Seq<char>, o: Seq<Answer>, p: int, k: nat) -> Step<
    ExprView,
> {
    match consume(t, f, p, TokenView::At) {
        Err(e) => (Err(e), k),
        Ok((td, p1)) => match tk(t, p1) {
            TokenView::String(path) => if k < o.len() && o[k as int].0 == path {
                match o[k as int].1 {
                    Err(e) => (Err(e), k + 1),
                    Ok(ast) => match file_stem(path) {
                        Some(stem) => (
                            Ok((ExprView::Assign(stem, Box::new(ast), td), p1 + 1)),
                            k + 1,
                        ),
                        None => (Err(Seq::empty()), k + 1),
                    },
                }
            } else {
                (Err(Seq::empty()), k)
            },
            _ => (Err(frame(t, p1, f, macro_msg())), k),
        },
    }
}

pub proof fn lemma_skip_nl(t: Seq<Lexeme>, p: int)
    requires
        0 <= p,
    ensures
        p <= skip_nl(t, p),
        p <= t.len() ==> skip_nl(t, p) <= t.len(),
        skip_nl(t, p) < t.len() ==> !(t[skip_nl(t, p)].0 is Newline),
    decreases t.len() - p,
{
    if 0 <= p < t.len() && t[p].0 is Newline {
        lemma_skip_nl(t, p + 1);
    }
}

/// Whether `q` lies past `p` and within the tokens.
pub open spec fn advanced(t: Seq<Lexeme>, p: int, q: int) -> bool {
    p < q <= t.len()
}

/// A nested step that did not move past its start; the guards keep it out.
pub open spec fn stuck<T>(k: nat) -> Step<T> {
    (Err(Seq::empty()), k)
}

/// A statement at `p`, after line breaks: a flow control, a return, an `@` macro
/// or an expression.
pub open spec fn statement(t: Seq<Lexeme>, f: Seq<char>, o: Seq<Answer>, p: int, k: nat) -> Step<
    ExprView,
>
    decreases t.len() - p, 5int,
{
    if p < 0 {
        stuck(k)
    } else {
        let q = skip_nl(t, p);
        proof {
            lemma_skip_nl(t, p);
        }
        match tk(t, q) {
            TokenView::Question => flow_control(t, f, o, q, k),
            TokenView::Caret => return_expr(t, f, o, q, k),
            TokenView::At => macro_use(t, f, o, q, k),
            _ => expression(t, f, o, q, k),
        }
    }
}

/// A flow control `? (cond) { .. }`, with an optional `: { .. }` fallback and an
/// optional `~ (name) { .. }` rescue.
pub open spec fn flow_control(t: Seq<Lexeme>, f: Seq<char>, o: Seq<Answer>, p: int, k: nat) -> Step<
    ExprView,
>
    decreases t.len() - p, 1int,
{
    match consume(t, f, p, TokenView::Question) {
        Err(e) => (Err(e), k),
        Ok((td, p1)) => match consume(t, f, p1, TokenView::LParen) {
            Err(e) => (Err(e), k),
            Ok((_, p2)) => match expression(t, f, o, p2, k) {
                (Err(e), k1) => (Err(e), k1),
                (Ok((cond, p3)), k1) => if !advanced(t, p, p3) {
                    stuck(k1)
                } else {
                    match consume(t, f, p3, TokenView::RParen) {
                        Err(e) => (Err(e), k1),
                        Ok((_, p4)) => match block(t, f, o, p4, k1) {
                            (Err(e), k2) => (Err(e), k2),
                            (Ok((success, p5)), k2) => if !advanced(t, p, p5) {
                                stuck(k2)
                            } else {
                                flow_rest(t, f, o, cond, success, td, p5, k2)
                            },
                        },
                    }
                },
            },
        },
    }
}

/// The part of a flow control after its first block: the optional fallback,
/// then the optional rescue.
pub open spec fn flow_rest(
    t: Seq<Lexeme>,
    f: Seq<char>,
    o: Seq<Answer>,
    cond: ExprView,
    success: ExprView,
    td: TokenDataView,
    p: int,
    k: nat,
) -> Step<ExprView>
    decreases t.len() - p, 2int,
{
    if p < 0 {
        stuck(k)
    } else {
        let s = skip_nl(t, p);
        proof {
            lemma_skip_nl(t, p);
        }
        let fb: Step<Option<Box<ExprView>>> = if tk(t, s) is Colon {
            match block(t, f, o, s + 1, k) {
                (Err(e), k3) => (Err(e), k3),
                (Ok((b, p6)), k3) => (Ok((Some(Box::new(b)), p6)), k3),
            }
        } else {
            (Ok((None, p)), k)
        };
        match fb {
            (Err(e), k3) => (Err(e), k3),
            (Ok((fallback, p6)), k3) => if !(p <= p6 <= t.len()) {
                stuck(k3)
            } else {
                flow_rescue(t, f, o, cond, success, fallback, td, p6, k3)
            },
        }
    }
}

/// The end of a flow control: after line breaks, an optional rescue
/// `~ (name) { .. }`.
pub open spec fn flow_rescue(
    t: Seq<Lexeme>,
    f: Seq<char>,
    o: Seq<Answer>,
    cond: ExprView,
    success: ExprView,
    fallback: Option<Box<ExprView>>,
    td: TokenDataView,
    p: int,
    k: nat,
) -> Step<ExprView>
    decreases t.len() - p, 1int,
{
    if p < 0 {
        stuck(k)
    } else {
        let s2 = skip_nl(t, p);
        proof {
            lemma_skip_nl(t, p);
        }
        if tk(t, s2) is Rescue {
            match consume(t, f, s2 + 1, TokenView::LParen) {
                Err(e) => (Err(e), k),
                Ok((_, q1)) => match consume_ident(t, f, q1) {
                    Err(e) => (Err(e), k),
                    Ok((var, q2)) => match consume(t, f, q2, TokenView::RParen) {
                        Err(e) => (Err(e), k),
                        Ok((_, q3)) => match block(t, f, o, q3, k) {
                            (Err(e), k4) => (Err(e), k4),
                            (Ok((rescue, q4)), k4) => (
                                Ok(
                                    (
                                        ExprView::FlowControl {
                                            condition: Box::new(cond),
                                            success: Box::new(success),
                                            fallback,
                                            rescue: Some(Box::new(rescue)),
                                            catch_var: Some(var),
                                            token: td,
                                        },
                                        q4,
                                    ),
                                ),
                                k4,
                            ),
                        },
                    },
                },
            }
        } else {
            (
                Ok(
                    (
                        ExprView::FlowControl {
                            condition: Box::new(cond),
                            success: Box::new(success),
                            fallback,
                            rescue: None,
                            catch_var: None,
                            token: td,
                        },
                        s2,
                    ),
                ),
                k,
            )
        }
    }
}

/// An expression: a primary, and `= value` when the primary is a plain name.
pub open spec fn expression(t: Seq<Lexeme>, f: Seq<char>, o: Seq<Answer>, p: int, k: nat) -> Step<
    ExprView,
>
    decreases t.len() - p, 4int,
{
    match primary(t, f, o, p, k) {
        (Err(e), k1) => (Err(e), k1),
        (Ok((e, p1)), k1) => if tk(t, p1) is Assign {
            match e {
                ExprView::Ident(name, false, td) => if p1 < p {
                    stuck(k1)
                } else {
                    match expression(t, f, o, p1 + 1, k1) {
                        (Err(x), k2) => (Err(x), k2),
                        (Ok((v, p2)), k2) => (Ok((ExprView::Assign(name, Box::new(v), td), p2)), k2),
                    }
                },
                _ => (Err(frame(t, p1, f, "Invalid assignment target"@)), k1),
            }
        } else {
            (Ok((e, p1)), k1)
        },
    }
}

/// A primary before its field accesses and calls: a literal, a name, a
/// group, a task, a block, an object, an array, a negation, a return or an `@`
/// macro.
pub open spec fn primary_base(t: Seq<Lexeme>, f: Seq<char>, o: Seq<Answer>, p: int, k: nat) -> Step<
    ExprView,
>
    decreases t.len() - p, 2int,
{
    let td = tdat(t, p);
    match tk(t, p) {
        TokenView::At => macro_use(t, f, o, p, k),
        TokenView::LParen => if func_def_start(t, p) {
            func_def(t, f, o, p, k)
        } else {
            match expression(t, f, o, p + 1, k) {
                (Err(e), k1) => (Err(e), k1),
                (Ok((e, p1)), k1) => match consume(t, f, p1, TokenView::RParen) {
                    Err(x) => (Err(x), k1),
                    Ok((_, p2)) => (Ok((e, p2)), k1),
                },
            }
        },
        TokenView::LBrace => if object_start(t, p) {
            object_literal(t, f, o, p, k)
        } else {
            block(t, f, o, p, k)
        },
        TokenView::LBracket => array_literal(t, f, o, p, k),
        TokenView::Not => match primary(t, f, o, p + 1, k) {
            (Err(e), k1) => (Err(e), k1),
            (Ok((e, p1)), k1) => (Ok((ExprView::UnOp("!"@, Box::new(e), td), p1)), k1),
        },
        TokenView::Hash => match consume_ident(t, f, p + 1) {
            Err(e) => (Err(e), k),
            Ok((id, p2)) => (Ok((ExprView::Ident(id, true, td), p2)), k),
        },
        TokenView::Identifier(id) => (Ok((ExprView::Ident(id, false, td), p + 1)), k),
        TokenView::String(s) => (Ok((ExprView::Literal(LiteralView::String(s), td), p + 1)), k),
        TokenView::Number(n) => (Ok((ExprView::Literal(LiteralView::Number(n), td), p + 1)), k),
        TokenView::Caret => return_expr(t, f, o, p, k),
        _ => (Err(frame(t, p, f, "Unexpected token: "@ + token_debug_spec(tk(t, p)))), k),
    }
}

/// A primary, followed by field accesses and calls.
pub open spec fn primary(t: Seq<Lexeme>, f: Seq<char>, o: Seq<Answer>, p: int, k: nat) -> Step<
    ExprView,
>
    decreases t.len() - p, 3int,
{
    match primary_base(t, f, o, p, k) {
        (Err(e), k1) => (Err(e), k1),
        (Ok((e, p1)), k1) => if !advanced(t, p, p1) {
            stuck(k1)
        } else {
            finish_primary(t, f, o, e, p1, k1)
        },
    }
}

/// Field accesses `.name` and calls `(args)` after a primary.
pub open spec fn finish_primary(
    t: Seq<Lexeme>,
    f: Seq<char>,
    o: Seq<Answer>,
    e: ExprView,
    p: int,
    k: nat,
) -> Step<ExprView>
    decreases t.len() - p, 6int,
{
    match tk(t, p) {
        TokenView::Dot => match consume_ident(t, f, p + 1) {
            Err(x) => (Err(x), k),
            Ok((id, p2)) => finish_primary(
                t,
                f,
                o,
                ExprView::Field(Box::new(e), id, tdat(t, p)),
                p2,
                k,
            ),
        },
        TokenView::LParen => match arg_list(t, f, o, p, k) {
            (Err(x), k1) => (Err(x), k1),
            (Ok((args, p2)), k1) => if !advanced(t, p, p2) {
                stuck(k1)
            } else {
                finish_primary(t, f, o, ExprView::FuncCall(Box::new(e), args, tdat(t, p)), p2, k1)
            },
        },
        _ => (Ok((e, p)), k),
    }
}

/// Postfix field accesses and calls chain as far as they go: where the
/// postfix part after a primary parses, it stops at a token that is neither
/// `.` nor `(`, so `f(1).length` and `f(1)(2)` each give one expression.
pub proof fn law_postfix_maximal(t: Seq<Lexeme>, f: Seq<char>, o: Seq<Answer>, e: ExprView, p: int, k: nat)
    ensures
        finish_primary(t, f, o, e, p, k).0 matches Ok((_, q)) ==> !(tk(t, q) is Dot) && !(tk(t, q) is LParen),
    decreases t.len() - p,
{
    match tk(t, p) {
        TokenView::Dot => {
            if let Ok((id, p2)) = consume_ident(t, f, p + 1) {
                law_postfix_maximal(t, f, o, ExprView::Field(Box::new(e), id, tdat(t, p)), p2, k);
            }
        },
        TokenView::LParen => {
            if let (Ok((args, p2)), k1) = arg_list(t, f, o, p, k) {
                if advanced(t, p, p2) {
                    law_postfix_maximal(t, f, o, ExprView::FuncCall(Box::new(e), args, tdat(t, p)), p2, k1);
                }
            }
        },
        _ => {},
    }
}

/// A parenthesized argument list, with line breaks allowed around the items.
pub open spec fn arg_list(t: Seq<Lexeme>, f: Seq<char>, o: Seq<Answer>, p: int, k: nat) -> Step<
    Seq<ExprView>,
>
    decreases t.len() - p, 1int,
{
    match consume(t, f, p, TokenView::LParen) {
        Err(x) => (Err(x), k),
        Ok((_, p1)) => {
            proof {
                lemma_skip_nl(t, p1);
            }
            match arg_items(t, f, o, skip_nl(t, p1), k) {
                (Err(x), k1) => (Err(x), k1),
                (Ok((args, r)), k1) => match consume(t, f, skip_nl(t, r), TokenView::RParen) {
                    Err(x) => (Err(x), k1),
                    Ok((_, r3)) => (Ok((args, r3)), k1),
                },
            }
        },
    }
}

/// The items of an argument list at `p`: none when `)` follows, else
/// expressions separated by commas.
pub open spec fn arg_items(t: Seq<Lexeme>, f: Seq<char>, o: Seq<Answer>, p: int, k: nat) -> Step<
    Seq<ExprView>,
>
    decreases t.len() - p, 5int,
{
    if tk(t, p) is RParen {
        (Ok((Seq::empty(), p)), k)
    } else {
        match expression(t, f, o, p, k) {
            (Err(x), k1) => (Err(x), k1),
            (Ok((a, q1)), k1) => if !advanced(t, p, q1) {
                stuck(k1)
            } else {
                more_args(t, f, o, seq![a], q1, k1)
            },
        }
    }
}

/// The arguments after the first: `, expr` as long as a comma follows.
pub open spec fn more_args(
    t: Seq<Lexeme>,
    f: Seq<char>,
    o: Seq<Answer>,
    acc: Seq<ExprView>,
    p: int,
    k: nat,
) -> Step<Seq<ExprView>>
    decreases t.len() - p, 6int,
{
    if p < 0 {
        stuck(k)
    } else {
        let q = skip_nl(t, p);
        proof {
            lemma_skip_nl(t, p);
        }
        if tk(t, q) is Comma {
            let q2 = skip_nl(t, q + 1);
            proof {
                lemma_skip_nl(t, q + 1);
            }
            match expression(t, f, o, q2, k) {
                (Err(x), k1) => (Err(x), k1),
                (Ok((a, q3)), k1) => if !advanced(t, p, q3) {
                    stuck(k1)
                } else {
                    more_args(t, f, o, acc.push(a), q3, k1)
                },
            }
        } else {
            (Ok((acc, q)), k)
        }
    }
}

/// A task definition `(params) { body }`.
pub open spec fn func_def(t: Seq<Lexeme>, f: Seq<char>, o: Seq<Answer>, p: int, k: nat) -> Step<
    ExprView,
>
    decreases t.len() - p, 1int,
{
    let td = tdat(t, p);
    match consume(t, f, p, TokenView::LParen) {
        Err(x) => (Err(x), k),
        Ok((_, p1)) => match param_items(t, f, o, p1, k) {
            (Err(x), k1) => (Err(x), k1),
            (Ok((params, r)), k1) => match consume(t, f, r, TokenView::RParen) {
                Err(x) => (Err(x), k1),
                Ok((_, r1)) => if !advanced(t, p, r1) {
                    stuck(k1)
                } else {
                    match block(t, f, o, r1, k1) {
                        (Err(x), k2) => (Err(x), k2),
                        (Ok((body, r2)), k2) => (
                            Ok((ExprView::FuncDef(params, Box::new(body), td), r2)),
                            k2,
                        ),
                    }
                },
            },
        },
    }
}

/// The parameters of a task definition at `p`: none when `)` follows, else
/// parameters separated by commas.
pub open spec fn param_items(t: Seq<Lexeme>, f: Seq<char>, o: Seq<Answer>, p: int, k: nat) -> Step<
    Seq<ParamView>,
>
    decreases t.len() - p, 2int,
{
    if tk(t, p) is RParen {
        (Ok((Seq::empty(), p)), k)
    } else {
        match param(t, f, o, p, k) {
            (Err(x), k1) => (Err(x), k1),
            (Ok((pa, q1)), k1) => if !advanced(t, p, q1) {
                stuck(k1)
            } else {
                more_params(t, f, o, seq![pa], q1, k1)
            },
        }
    }
}

/// The parameters after the first: `, param` as long as a comma follows.
pub open spec fn more_params(
    t: Seq<Lexeme>,
    f: Seq<char>,
    o: Seq<Answer>,
    acc: Seq<ParamView>,
    p: int,
    k: nat,
) -> Step<Seq<ParamView>>
    decreases t.len() - p, 6int,
{
    if tk(t, p) is Comma {
        match param(t, f, o, p + 1, k) {
            (Err(x), k1) => (Err(x), k1),
            (Ok((pa, q)), k1) => if !advanced(t, p, q) {
                stuck(k1)
            } else {
                more_params(t, f, o, acc.push(pa), q, k1)
            },
        }
    } else {
        (Ok((acc, p)), k)
    }
}

/// A parameter: `?` marks it optional, `= expr` gives it a default (which
/// makes it optional too).
pub open spec fn param(t: Seq<Lexeme>, f: Seq<char>, o: Seq<Answer>, p: int, k: nat) -> Step<
    ParamView,
>
    decreases t.len() - p, 1int,
{
    let optional = tk(t, p) is Question;
    let p1 = if optional {
        p + 1
    } else {
        p
    };
    match consume_ident(t, f, p1) {
        Err(x) => (Err(x), k),
        Ok((name, p2)) => if tk(t, p2) is Assign {
            if p2 < p {
                stuck(k)
            } else {
                match expression(t, f, o, p2 + 1, k) {
                    (Err(x), k1) => (Err(x), k1),
                    (Ok((dv, p3)), k1) => (
                        Ok(
                            (
                                ParamView {
                                    name,
                                    is_optional: true,
                                    default_value: Some(Box::new(dv)),
                                },
                                p3,
                            ),
                        ),
                        k1,
                    ),
                }
            }
        } else {
            (Ok((ParamView { name, is_optional: optional, default_value: None }, p2)), k)
        },
    }
}

/// A block `{ statements }`.
pub open spec fn block(t: Seq<Lexeme>, f: Seq<char>, o: Seq<Answer>, p: int, k: nat) -> Step<
    ExprView,
>
    decreases t.len() - p, 1int,
{
    match consume(t, f, p, TokenView::LBrace) {
        Err(x) => (Err(x), k),
        Ok((td, p1)) => match block_items(t, f, o, Seq::empty(), p1, k) {
            (Err(x), k1) => (Err(x), k1),
            (Ok((stmts, r)), k1) => match consume(t, f, r, TokenView::RBrace) {
                Err(x) => (Err(x), k1),
                Ok((_, r1)) => (Ok((ExprView::Block(stmts, td), r1)), k1),
            },
        },
    }
}

/// The statements of a block, up to its `}` or the end.
pub open spec fn block_items(
    t: Seq<Lexeme>,
    f: Seq<char>,
    o: Seq<Answer>,
    acc: Seq<ExprView>,
    p: int,
    k: nat,
) -> Step<Seq<ExprView>>
    decreases t.len() - p, 6int,
{
    if p < 0 {
        stuck(k)
    } else if tk(t, p) is RBrace || at_eof(t, p) {
        (Ok((acc, p)), k)
    } else {
        let q = skip_nl(t, p);
        proof {
            lemma_skip_nl(t, p);
        }
        if tk(t, q) is RBrace {
            (Ok((acc, q)), k)
        } else {
            match statement(t, f, o, q, k) {
                (Err(x), k1) => (Err(x), k1),
                (Ok((s, q2)), k1) => if !advanced(t, p, q2) {
                    stuck(k1)
                } else {
                    block_items(t, f, o, acc.push(s), q2, k1)
                },
            }
        }
    }
}

/// An object literal `{ key: value, .. }`; a repeated key keeps its first place
/// and its last value.
pub open spec fn object_literal(
    t: Seq<Lexeme>,
    f: Seq<char>,
    o: Seq<Answer>,
    p: int,
    k: nat,
) -> Step<ExprView>
    decreases t.len() - p, 1int,
{
    match consume(t, f, p, TokenView::LBrace) {
        Err(x) => (Err(x), k),
        Ok((td, p1)) => match object_items(t, f, o, Seq::empty(), p1, k) {
            (Err(x), k1) => (Err(x), k1),
            (Ok((fields, r)), k1) => match consume(t, f, r, TokenView::RBrace) {
                Err(x) => (Err(x), k1),
                Ok((_, r1)) => (Ok((ExprView::Object(fields, td), r1)), k1),
            },
        },
    }
}

/// The fields of an object literal, up to its `}` or the end.
pub open spec fn object_items(
    t: Seq<Lexeme>,
    f: Seq<char>,
    o: Seq<Answer>,
    acc: Seq<(Seq<char>, ExprView)>,
    p: int,
    k: nat,
) -> Step<Seq<(Seq<char>, ExprView)>>
    decreases t.len() - p, 6int,
{
    if p < 0 {
        stuck(k)
    } else if tk(t, p) is RBrace || at_eof(t, p) {
        (Ok((acc, p)), k)
    } else {
        let q = skip_nl(t, p);
        proof {
            lemma_skip_nl(t, p);
        }
        if tk(t, q) is RBrace {
            (Ok((acc, q)), k)
        } else {
            match consume_ident(t, f, q) {
                Err(x) => (Err(x), k),
                Ok((key, q1)) => match consume(t, f, q1, TokenView::Colon) {
                    Err(x) => (Err(x), k),
                    Ok((_, q2)) => match expression(t, f, o, q2, k) {
                        (Err(x), k1) => (Err(x), k1),
                        (Ok((v, q3)), k1) => {
                            let q4 = if tk(t, q3) is Comma {
                                q3 + 1
                            } else {
                                q3
                            };
                            if !advanced(t, p, q4) {
                                stuck(k1)
                            } else {
                                object_items(t, f, o, set_field(acc, key, v), q4, k1)
                            }
                        },
                    },
                },
            }
        }
    }
}

/// An array literal `[ items ]`.
pub open spec fn array_literal(t: Seq<Lexeme>, f: Seq<char>, o: Seq<Answer>, p: int, k: nat) -> Step<
    ExprView,
>
    decreases t.len() - p, 1int,
{
    match consume(t, f, p, TokenView::LBracket) {
        Err(x) => (Err(x), k),
        Ok((td, p1)) => match array_items(t, f, o, Seq::empty(), p1, k) {
            (Err(x), k1) => (Err(x), k1),
            (Ok((items, r)), k1) => match consume(t, f, r, TokenView::RBracket) {
                Err(x) => (Err(x), k1),
                Ok((_, r1)) => (Ok((ExprView::Array(items, td), r1)), k1),
            },
        },
    }
}

/// The items of an array literal, up to its `]` or the end.
pub open spec fn array_items(
    t: Seq<Lexeme>,
    f: Seq<char>,
    o: Seq<Answer>,
    acc: Seq<ExprView>,
    p: int,
    k: nat,
) -> Step<Seq<ExprView>>
    decreases t.len() - p, 6int,
{
    if p < 0 {
        stuck(k)
    } else if tk(t, p) is RBracket || at_eof(t, p) {
        (Ok((acc, p)), k)
    } else {
        let q = skip_nl(t, p);
        proof {
            lemma_skip_nl(t, p);
        }
        if tk(t, q) is RBracket {
            (Ok((acc, q)), k)
        } else {
            match expression(t, f, o, q, k) {
                (Err(x), k1) => (Err(x), k1),
                (Ok((v, q3)), k1) => {
                    let q4 = if tk(t, q3) is Comma {
                        q3 + 1
                    } else {
                        q3
                    };
                    if !advanced(t, p, q4) {
                        stuck(k1)
                    } else {
                        array_items(t, f, o, acc.push(v), q4, k1)
                    }
                },
            }
        }
    }
}

/// Whether a return `^` at `p` has a value: it is not followed by the end, a
/// line break or a closing token.
pub open spec fn return_has_value(t: Seq<Lexeme>, p: int) -> bool {
    !at_eof(t, p) && !(tk(t, p) is Newline || tk(t, p) is RBrace || tk(t, p) is RBracket || tk(
        t,
        p,
    ) is Comma || tk(t, p) is RParen)
}

/// A return `^ value`, or `^` alone, which returns nothing.
pub open spec fn return_expr(t: Seq<Lexeme>, f: Seq<char>, o: Seq<Answer>, p: int, k: nat) -> Step<
    ExprView,
>
    decreases t.len() - p, 1int,
{
    match consume(t, f, p, TokenView::Caret) {
        Err(x) => (Err(x), k),
        Ok((td, p1)) => if return_has_value(t, p1) {
            match expression(t, f, o, p1, k) {
                (Err(x), k1) => (Err(x), k1),
                (Ok((v, q)), k1) => (Ok((ExprView::UnOp("^"@, Box::new(v), td), q)), k1),
            }
        } else {
            (
                Ok(
                    (
                        ExprView::UnOp(
                            "^"@,
                            Box::new(ExprView::Literal(LiteralView::Void, td)),
                            td,
                        ),
                        p1,
                    ),
                ),
                k,
            )
        },
    }
}

/// The includes that open a script, each followed by line breaks.
pub open spec fn leading_includes(
    t: Seq<Lexeme>,
    f: Seq<char>,
    o: Seq<Answer>,
    acc: Seq<ExprView>,
    p: int,
    k: nat,
) -> Step<Seq<ExprView>>
    decreases t.len() - p,
{
    if !at_eof(t, p) && tk(t, p) is At && p >= 0 {
        match macro_use(t, f, o, p, k) {
            (Err(x), k1) => (Err(x), k1),
            (Ok((s, q)), k1) => {
                let q2 = skip_nl(t, q);
                proof {
                    lemma_skip_nl(t, q);
                }
                if !advanced(t, p, q2) {
                    stuck(k1)
                } else {
                    leading_includes(t, f, o, acc.push(s), q2, k1)
                }
            },
        }
    } else {
        (Ok((acc, p)), k)
    }
}

/// The one task of a script: a task definition or a block.
pub open spec fn main_task(t: Seq<Lexeme>, f: Seq<char>, o: Seq<Answer>, p: int, k: nat) -> Step<
    ExprView,
> {
    if tk(t, p) is LParen && func_def_start(t, p) {
        func_def(t, f, o, p, k)
    } else if tk(t, p) is LBrace {
        block(t, f, o, p, k)
    } else {
        (Err("Syntax Error: Expected main task definition (a closure or a block)."@), k)
    }
}

/// A whole script: includes, then exactly one task (a task definition or a
/// block), then nothing but line breaks. With includes, the result is a block
/// of the macros and the task, at the first macro's position.
pub open spec fn script(t: Seq<Lexeme>, f: Seq<char>, o: Seq<Answer>, p: int, k: nat) -> (
    Result<ExprView, Seq<char>>,
    nat,
) {
    let p0 = skip_nl(t, p);
    match leading_includes(t, f, o, Seq::empty(), p0, k) {
        (Err(x), k1) => (Err(x), k1),
        (Ok((stmts, p1)), k1) => if at_eof(t, p1) {
            (Err("Syntax Error: Script is empty."@), k1)
        } else {
            match main_task(t, f, o, p1, k1) {
                (Err(x), k2) => (Err(x), k2),
                (Ok((m, p2)), k2) => {
                    let p3 = skip_nl(t, p2);
                    if !at_eof(t, p3) {
                        (
                            Err(
                                "Syntax Error: Unexpected code outside of main task. A Hank script must contain exactly one Task definition."@,
                            ),
                            k2,
                        )
                    } else if stmts.len() == 0 {
                        (Ok(m), k2)
                    } else {
                        let all = stmts.push(m);
                        (Ok(ExprView::Block(all, expr_token(all[0]))), k2)
                    }
                },
            }
        },
    }
}

/// Whether a syntax tree is a task: a task definition or a block.
pub open spec fn is_task(e: ExprView) -> bool {
    e is FuncDef || e is Block
}

proof fn lemma_main_task_shape(t: Seq<Lexeme>, f: Seq<char>, o: Seq<Answer>, p: int, k: nat)
    ensures
        main_task(t, f, o, p, k).0 matches Ok((e, _)) ==> is_task(e),
{
}

/// A script that parses gives a task (a task definition or a block); without
/// includes it is the script's one task itself, and with includes it is a
/// block that holds the includes and then that task.
pub proof fn law_script_is_task(t: Seq<Lexeme>, f: Seq<char>, o: Seq<Answer>, p: int, k: nat)
    ensures
        script(t, f, o, p, k).0 matches Ok(e) ==> is_task(e),
{
    let p0 = skip_nl(t, p);
    if let (Ok((stmts, p1)), k1) = leading_includes(t, f, o, Seq::empty(), p0, k) {
        lemma_main_task_shape(t, f, o, p1, k1);
    }
}

} // verus!
