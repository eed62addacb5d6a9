//! The parser's expressions: assignments, primaries, field accesses and calls.
use vstd::prelude::*;
use crate::ast::{
    Expr, ExprView, Literal, expr_deep, exprs_deep, lemma_exprs_len, lemma_exprs_push,
};
use crate::lexer::Token;
use crate::parser::{Parser, expr_out, exprs_out, extends, token_debug};
use crate::parser_spec::{
    Answer, expression, primary, primary_base, finish_primary, arg_list, arg_items, more_args,
    func_def, block, object_literal, array_literal, return_expr, lemma_skip_nl, skip_nl,
    macro_use, consume,
};
use crate::text::push_str;

verus! {

impl<F: Fn(String) -> Result<Expr, String>> Parser<F> {
    /// An expression.
    pub(crate) fn parse_expression(&mut self) -> (r: Result<Expr, String>)
        requires
            old(self).wf(),
        ensures
            final(self).wf(),
            old(self).later(*final(self)),
            old(self).at() <= final(self).at(),
            r is Ok ==> old(self).at() < final(self).at(),
            forall|o: Seq<Answer>|
                extends(o, final(self).answers()) ==> #[trigger] expression(
                    old(self).toks(),
                    old(self).file(),
                    o,
                    old(self).at(),
                    old(self).answers().len(),
                ) == expr_out(r, final(self).at(), final(self).answers().len()),
        decreases old(self).toks().len() - old(self).at(), 5int,
    {
        self.parse_assignment()
    }

    /// A primary, and `= value` when the primary is a plain name.
    pub(crate) fn parse_assignment(&mut self) -> (r: Result<Expr, String>)
        requires
            old(self).wf(),
        ensures
            final(self).wf(),
            old(self).later(*final(self)),
            old(self).at() <= final(self).at(),
            r is Ok ==> old(self).at() < final(self).at(),
            forall|o: Seq<Answer>|
                extends(o, final(self).answers()) ==> #[trigger] expression(
                    old(self).toks(),
                    old(self).file(),
                    o,
                    old(self).at(),
                    old(self).answers().len(),
                ) == expr_out(r, final(self).at(), final(self).answers().len()),
        decreases old(self).toks().len() - old(self).at(), 4int,
    {
        let ghost t = self.toks();
        let ghost f = self.file();
        let ghost p0 = self.at();
        let ghost k0 = self.answers().len();
        let res = self.parse_primary();
        let expr = match res {
            Ok(e) => e,
            Err(e) => {
                let r = Err(e);
                proof {
                    assert forall|o: Seq<Answer>| extends(o, self.answers()) implies #[trigger] expression(t, f, o, p0, k0) == expr_out(r, self.at(), self.answers().len()) by {
                        assert(primary(t, f, o, p0, k0) == expr_out(res, self.at(), self.answers().len()));
                    }
                }
                return r;
            },
        };
        let ghost ev = expr_deep(expr);
        let ghost p1 = self.at();
        let ghost a1 = self.answers();
        if self.cur_is(Token::Assign) {
            match expr {
                Expr::Ident(name, false, td) => {
                    self.advance();
                    let res2 = self.parse_expression();
                    let r = match res2 {
                        Ok(v) => Ok(Expr::Assign(name, Box::new(v), td)),
                        Err(e) => Err(e),
                    };
                    proof {
                        assert forall|o: Seq<Answer>| extends(o, self.answers()) implies #[trigger] expression(t, f, o, p0, k0) == expr_out(r, self.at(), self.answers().len()) by {
                            assert(extends(o, a1));
                            assert(primary(t, f, o, p0, k0) == (Ok::<(ExprView, int), Seq<char>>((ev, p1)), a1.len()));
                            assert(expression(t, f, o, p1 + 1, a1.len()) == expr_out(res2, self.at(), self.answers().len()));
                        }
                    }
                    return r;
                },
                _ => {
                    let r = Err(self.error("Invalid assignment target"));
                    proof {
                        assert forall|o: Seq<Answer>| extends(o, self.answers()) implies #[trigger] expression(t, f, o, p0, k0) == expr_out(r, self.at(), self.answers().len()) by {
                            assert(primary(t, f, o, p0, k0) == (Ok::<(ExprView, int), Seq<char>>((ev, p1)), a1.len()));
                        }
                    }
                    return r;
                },
            }
        }
        let r = Ok(expr);
        proof {
            assert forall|o: Seq<Answer>| extends(o, self.answers()) implies #[trigger] expression(t, f, o, p0, k0) == expr_out(r, self.at(), self.answers().len()) by {
                assert(primary(t, f, o, p0, k0) == (Ok::<(ExprView, int), Seq<char>>((ev, p1)), a1.len()));
            }
        }
        r
    }

    /// A primary, followed by field accesses and calls.
    pub(crate) fn parse_primary(&mut self) -> (r: Result<Expr, String>)
        requires
            old(self).wf(),
        ensures
            final(self).wf(),
            old(self).later(*final(self)),
            old(self).at() <= final(self).at(),
            r is Ok ==> old(self).at() < final(self).at(),
            forall|o: Seq<Answer>|
                extends(o, final(self).answers()) ==> #[trigger] primary(
                    old(self).toks(),
                    old(self).file(),
                    o,
                    old(self).at(),
                    old(self).answers().len(),
                ) == expr_out(r, final(self).at(), final(self).answers().len()),
        decreases old(self).toks().len() - old(self).at(), 3int,
    {
        let ghost t = self.toks();
        let ghost f = self.file();
        let ghost p0 = self.at();
        let ghost k0 = self.answers().len();
        let res = self.parse_primary_base();
        match res {
            Ok(e) => {
                let ghost ev = expr_deep(e);
                let ghost p1 = self.at();
                let ghost a1 = self.answers();
                let r = self.finish_primary(e);
                proof {
                    assert forall|o: Seq<Answer>| extends(o, self.answers()) implies #[trigger] primary(t, f, o, p0, k0) == expr_out(r, self.at(), self.answers().len()) by {
                        assert(extends(o, a1));
                        assert(primary_base(t, f, o, p0, k0) == (Ok::<(ExprView, int), Seq<char>>((ev, p1)), a1.len()));
                        assert(finish_primary(t, f, o, ev, p1, a1.len()) == expr_out(r, self.at(), self.answers().len()));
                    }
                }
                r
            },
            Err(x) => {
                let r = Err(x);
                proof {
                    assert forall|o: Seq<Answer>| extends(o, self.answers()) implies #[trigger] primary(t, f, o, p0, k0) == expr_out(r, self.at(), self.answers().len()) by {
                        assert(primary_base(t, f, o, p0, k0) == expr_out(res, self.at(), self.answers().len()));
                    }
                }
                r
            },
        }
    }

    /// A primary before its field accesses and calls.
    pub(crate) fn parse_primary_base(&mut self) -> (r: Result<Expr, String>)
        requires
            old(self).wf(),
        ensures
            final(self).wf(),
            old(self).later(*final(self)),
            old(self).at() <= final(self).at(),
            r is Ok ==> old(self).at() < final(self).at(),
            forall|o: Seq<Answer>|
                extends(o, final(self).answers()) ==> #[trigger] primary_base(
                    old(self).toks(),
                    old(self).file(),
                    o,
                    old(self).at(),
                    old(self).answers().len(),
                ) == expr_out(r, final(self).at(), final(self).answers().len()),
        decreases old(self).toks().len() - old(self).at(), 2int,
    {
        let ghost t = self.toks();
        let ghost f = self.file();
        let ghost p0 = self.at();
        let ghost k0 = self.answers().len();
        let td = self.peek_td();
        if self.cur_is(Token::At) {
            let r = self.parse_include();
            proof {
                assert forall|o: Seq<Answer>| extends(o, self.answers()) implies #[trigger] primary_base(t, f, o, p0, k0) == expr_out(r, self.at(), self.answers().len()) by {
                    assert(macro_use(t, f, o, p0, k0) == expr_out(r, self.at(), self.answers().len()));
                }
            }
            r
        } else if self.cur_is(Token::LParen) {
            if self.is_func_def_start() {
                let r = self.parse_func_def();
                proof {
                    assert forall|o: Seq<Answer>| extends(o, self.answers()) implies #[trigger] primary_base(t, f, o, p0, k0) == expr_out(r, self.at(), self.answers().len()) by {
                        assert(func_def(t, f, o, p0, k0) == expr_out(r, self.at(), self.answers().len()));
                    }
                }
                r
            } else {
                self.advance();
                let res = self.parse_expression();
                match res {
                    Ok(e) => {
                        let ghost ev = expr_deep(e);
                        let ghost p1 = self.at();
                        let ghost a1 = self.answers();
                        let r = match self.consume(Token::RParen) {
                            Ok(_) => Ok(e),
                            Err(x) => Err(x),
                        };
                        proof {
                            assert forall|o: Seq<Answer>| extends(o, self.answers()) implies #[trigger] primary_base(t, f, o, p0, k0) == expr_out(r, self.at(), self.answers().len()) by {
                                assert(expression(t, f, o, p0 + 1, k0) == (Ok::<(ExprView, int), Seq<char>>((ev, p1)), a1.len()));
                            }
                        }
                        r
                    },
                    Err(x) => {
                        let r = Err(x);
                        proof {
                            assert forall|o: Seq<Answer>| extends(o, self.answers()) implies #[trigger] primary_base(t, f, o, p0, k0) == expr_out(r, self.at(), self.answers().len()) by {
                                assert(expression(t, f, o, p0 + 1, k0) == expr_out(res, self.at(), self.answers().len()));
                            }
                        }
                        r
                    },
                }
            }
        } else if self.cur_is(Token::LBrace) {
            if self.is_object_literal() {
                let r = self.parse_object_literal();
                proof {
                    assert forall|o: Seq<Answer>| extends(o, self.answers()) implies #[trigger] primary_base(t, f, o, p0, k0) == expr_out(r, self.at(), self.answers().len()) by {
                        assert(object_literal(t, f, o, p0, k0) == expr_out(r, self.at(), self.answers().len()));
                    }
                }
                r
            } else {
                let r = self.parse_block();
                proof {
                    assert forall|o: Seq<Answer>| extends(o, self.answers()) implies #[trigger] primary_base(t, f, o, p0, k0) == expr_out(r, self.at(), self.answers().len()) by {
                        assert(block(t, f, o, p0, k0) == expr_out(r, self.at(), self.answers().len()));
                    }
                }
                r
            }
        } else if self.cur_is(Token::LBracket) {
            let r = self.parse_array_literal();
            proof {
                assert forall|o: Seq<Answer>| extends(o, self.answers()) implies #[trigger] primary_base(t, f, o, p0, k0) == expr_out(r, self.at(), self.answers().len()) by {
                    assert(array_literal(t, f, o, p0, k0) == expr_out(r, self.at(), self.answers().len()));
                }
            }
            r
        } else if self.cur_is(Token::Not) {
            self.advance();
            let res = self.parse_primary();
            let r = match res {
                Ok(e) => Ok(Expr::UnOp("!".to_owned(), Box::new(e), td)),
                Err(x) => Err(x),
            };
            proof {
                assert forall|o: Seq<Answer>| extends(o, self.answers()) implies #[trigger] primary_base(t, f, o, p0, k0) == expr_out(r, self.at(), self.answers().len()) by {
                    assert(primary(t, f, o, p0 + 1, k0) == expr_out(res, self.at(), self.answers().len()));
                }
            }
            r
        } else if self.cur_is(Token::Hash) {
            self.advance();
            let r = match self.consume_identifier() {
                Ok(id) => Ok(Expr::Ident(id, true, td)),
                Err(x) => Err(x),
            };
            proof {
                assert forall|o: Seq<Answer>| extends(o, self.answers()) implies #[trigger] primary_base(t, f, o, p0, k0) == expr_out(r, self.at(), self.answers().len()) by {
                }
            }
            r
        } else if self.cur_is(Token::Caret) {
            let r = self.parse_return();
            proof {
                assert forall|o: Seq<Answer>| extends(o, self.answers()) implies #[trigger] primary_base(t, f, o, p0, k0) == expr_out(r, self.at(), self.answers().len()) by {
                    assert(return_expr(t, f, o, p0, k0) == expr_out(r, self.at(), self.answers().len()));
                }
            }
            r
        } else {
            let r = match self.peek() {
                Token::Identifier(id) => {
                    let id = id.clone();
                    self.advance();
                    Ok(Expr::Ident(id, false, td))
                },
                Token::String(s) => {
                    let s = s.clone();
                    self.advance();
                    Ok(Expr::Literal(Literal::String(s), td))
                },
                Token::Number(n) => {
                    let n = n.clone();
                    self.advance();
                    Ok(Expr::Literal(Literal::Number(n), td))
                },
                _ => {
                    let mut msg = "Unexpected token: ".to_owned();
                    let d = token_debug(self.peek());
                    push_str(&mut msg, d.as_str());
                    Err(self.error(msg.as_str()))
                },
            };
            proof {
                assert forall|o: Seq<Answer>| extends(o, self.answers()) implies #[trigger] primary_base(t, f, o, p0, k0) == expr_out(r, self.at(), self.answers().len()) by {
                }
            }
            r
        }
    }

    /// Field accesses `.name` and calls `(args)` after a primary.
    pub(crate) fn finish_primary(&mut self, e0: Expr) -> (r: Result<Expr, String>)
        requires
            old(self).wf(),
        ensures
            final(self).wf(),
            old(self).later(*final(self)),
            old(self).at() <= final(self).at(),
            forall|o: Seq<Answer>|
                extends(o, final(self).answers()) ==> #[trigger] finish_primary(
                    old(self).toks(),
                    old(self).file(),
                    o,
                    expr_deep(e0), old(self).at(),
                    old(self).answers().len(),
                ) == expr_out(r, final(self).at(), final(self).answers().len()),
        decreases old(self).toks().len() - old(self).at(), 7int,
    {
        let ghost t = self.toks();
        let ghost f = self.file();
        let ghost p0 = self.at();
        let ghost k0 = self.answers().len();
        let ghost init = expr_deep(e0);
        let mut expr = e0;
        loop
            invariant
                self.wf(),
                old(self).later(*self),
                t == self.toks(),
                f == self.file(),
                t == old(self).toks(),
                f == old(self).file(),
                p0 == old(self).at(),
                k0 == old(self).answers().len(),
                init == expr_deep(e0),
                p0 <= self.at(),
                forall|o: Seq<Answer>|
                    extends(o, self.answers()) ==> #[trigger] finish_primary(t, f, o, init, p0, k0)
                        == finish_primary(t, f, o, expr_deep(expr), self.at(), self.answers().len()),
            decreases self.toks().len() - self.at(),
        {
            let ghost p = self.at();
            let ghost k = self.answers().len();
            let ghost acc = expr_deep(expr);
            let ghost ap = self.answers();
            let td = self.peek_td();
            if self.cur_is(Token::Dot) {
                self.advance();
                match self.consume_identifier() {
                    Ok(id) => {
                        let ghost idv = id@;
                        expr = Expr::Field(Box::new(expr), id, td);
                        proof {
                            assert forall|o: Seq<Answer>| extends(o, self.answers()) implies #[trigger] finish_primary(t, f, o, init, p0, k0)
                                == finish_primary(t, f, o, expr_deep(expr), self.at(), self.answers().len()) by {
                                assert(finish_primary(t, f, o, acc, p, k) == finish_primary(t, f, o, expr_deep(expr), self.at(), self.answers().len()));
                            }
                        }
                    },
                    Err(x) => {
                        let r = Err(x);
                        proof {
                            assert forall|o: Seq<Answer>| extends(o, self.answers()) implies #[trigger] finish_primary(t, f, o, init, p0, k0) == expr_out(r, self.at(), self.answers().len()) by {
                                assert(finish_primary(t, f, o, acc, p, k) == expr_out(r, self.at(), self.answers().len()));
                            }
                        }
                        return r;
                    },
                }
            } else if self.cur_is(Token::LParen) {
                let res = self.parse_arg_list();
                match res {
                    Ok(args) => {
                        let ghost av = exprs_deep(args@);
                        expr = Expr::FuncCall(Box::new(expr), args, td);
                        proof {
                            assert forall|o: Seq<Answer>| extends(o, self.answers()) implies #[trigger] finish_primary(t, f, o, init, p0, k0)
                                == finish_primary(t, f, o, expr_deep(expr), self.at(), self.answers().len()) by {
                                assert(extends(o, ap));
                                assert(arg_list(t, f, o, p, k) == (Ok::<(Seq<ExprView>, int), Seq<char>>((av, self.at())), self.answers().len()));
                                assert(finish_primary(t, f, o, acc, p, k) == finish_primary(t, f, o, expr_deep(expr), self.at(), self.answers().len()));
                            }
                        }
                    },
                    Err(x) => {
                        let r = Err(x);
                        proof {
                            assert forall|o: Seq<Answer>| extends(o, self.answers()) implies #[trigger] finish_primary(t, f, o, init, p0, k0) == expr_out(r, self.at(), self.answers().len()) by {
                                assert(extends(o, ap));
                                assert(arg_list(t, f, o, p, k) == exprs_out(res, self.at(), self.answers().len()));
                                assert(finish_primary(t, f, o, acc, p, k) == expr_out(r, self.at(), self.answers().len()));
                            }
                        }
                        return r;
                    },
                }
            } else {
                let r = Ok(expr);
                proof {
                    assert forall|o: Seq<Answer>| extends(o, self.answers()) implies #[trigger] finish_primary(t, f, o, init, p0, k0) == expr_out(r, self.at(), self.answers().len()) by {
                        assert(finish_primary(t, f, o, acc, p, k) == expr_out(r, self.at(), self.answers().len()));
                    }
                }
                return r;
            }
        }
    }

    /// The end of an argument list: line breaks, then `)`.
    fn close_args(&mut self, args: Vec<Expr>) -> (r: Result<Vec<Expr>, String>)
        requires
            old(self).wf(),
        ensures
            final(self).wf(),
            old(self).later(*final(self)),
            final(self).answers() == old(self).answers(),
            old(self).at() <= final(self).at(),
            r is Ok ==> old(self).at() < final(self).at(),
            match (
                r,
                consume(
                    old(self).toks(),
                    old(self).file(),
                    skip_nl(old(self).toks(), old(self).at()),
                    crate::lexer::TokenView::RParen,
                ),
            ) {
                (Ok(v), Ok((_, r3))) => v@ == args@ && final(self).at() == r3,
                (Err(m), Err(sm)) => m@ == sm,
                _ => false,
            },
    {
        self.skip_newlines();
        match self.consume(Token::RParen) {
            Ok(_) => Ok(args),
            Err(e) => Err(e),
        }
    }

    /// A parenthesized argument list.
    pub(crate) fn parse_arg_list(&mut self) -> (r: Result<Vec<Expr>, String>)
        requires
            old(self).wf(),
        ensures
            final(self).wf(),
            old(self).later(*final(self)),
            old(self).at() <= final(self).at(),
            r is Ok ==> old(self).at() < final(self).at(),
            forall|o: Seq<Answer>|
                extends(o, final(self).answers()) ==> #[trigger] arg_list(
                    old(self).toks(),
                    old(self).file(),
                    o,
                    old(self).at(),
                    old(self).answers().len(),
                ) == exprs_out(r, final(self).at(), final(self).answers().len()),
        decreases old(self).toks().len() - old(self).at(), 1int,
    {
        let ghost t = self.toks();
        let ghost f = self.file();
        let ghost p0 = self.at();
        let ghost k0 = self.answers().len();
        match self.consume(Token::LParen) {
            Ok(_) => {},
            Err(e) => {
                let r = Err(e);
                proof {
                    assert forall|o: Seq<Answer>| extends(o, self.answers()) implies #[trigger] arg_list(t, f, o, p0, k0) == exprs_out(r, self.at(), self.answers().len()) by {
                    }
                }
                return r;
            },
        }
        let ghost p1 = self.at();
        self.skip_newlines();
        let ghost q = self.at();
        let res = self.parse_arg_items();
        match res {
            Ok(args) => {
                let ghost sv = exprs_deep(args@);
                let ghost q2 = self.at();
                let ghost a2 = self.answers();
                let r = self.close_args(args);
                proof {
                    assert forall|o: Seq<Answer>| extends(o, self.answers()) implies #[trigger] arg_list(t, f, o, p0, k0) == exprs_out(r, self.at(), self.answers().len()) by {
                        assert(arg_items(t, f, o, q, k0) == (Ok::<(Seq<ExprView>, int), Seq<char>>((sv, q2)), a2.len()));
                    }
                }
                r
            },
            Err(e) => {
                let r = Err(e);
                proof {
                    assert forall|o: Seq<Answer>| extends(o, self.answers()) implies #[trigger] arg_list(t, f, o, p0, k0) == exprs_out(r, self.at(), self.answers().len()) by {
                        assert(arg_items(t, f, o, q, k0) == exprs_out(res, self.at(), self.answers().len()));
                    }
                }
                r
            },
        }
    }

    /// The items of an argument list: none when `)` follows, else
    /// expressions separated by commas.
    pub(crate) fn parse_arg_items(&mut self) -> (r: Result<Vec<Expr>, String>)
        requires
            old(self).wf(),
        ensures
            final(self).wf(),
            old(self).later(*final(self)),
            old(self).at() <= final(self).at(),
            forall|o: Seq<Answer>|
                extends(o, final(self).answers()) ==> #[trigger] arg_items(
                    old(self).toks(),
                    old(self).file(),
                    o,
                    old(self).at(),
                    old(self).answers().len(),
                ) == exprs_out(r, final(self).at(), final(self).answers().len()),
        decreases old(self).toks().len() - old(self).at(), 6int,
    {
        let ghost t = self.toks();
        let ghost f = self.file();
        let ghost p0 = self.at();
        let ghost k0 = self.answers().len();
        if self.cur_is(Token::RParen) {
            let r = Ok(Vec::new());
            proof {
                lemma_exprs_len(Seq::<Expr>::empty());
                assert(exprs_deep(Seq::<Expr>::empty()) =~= Seq::<ExprView>::empty());
            }
            proof {
                assert forall|o: Seq<Answer>| extends(o, self.answers()) implies #[trigger] arg_items(t, f, o, p0, k0) == exprs_out(r, self.at(), self.answers().len()) by {
                }
            }
            return r;
        }
        let res = self.parse_expression();
        let a = match res {
            Ok(a) => a,
            Err(e) => {
                let r = Err(e);
                proof {
                    assert forall|o: Seq<Answer>| extends(o, self.answers()) implies #[trigger] arg_items(t, f, o, p0, k0) == exprs_out(r, self.at(), self.answers().len()) by {
                        assert(expression(t, f, o, p0, k0) == expr_out(res, self.at(), self.answers().len()));
                    }
                }
                return r;
            },
        };
        let ghost av = expr_deep(a);
        let ghost q1 = self.at();
        let ghost a1 = self.answers();
        let mut first: Vec<Expr> = Vec::new();
        first.push(a);
        proof {
            lemma_exprs_push(Seq::<Expr>::empty(), a);
            lemma_exprs_len(Seq::<Expr>::empty());
            assert(exprs_deep(first@) =~= seq![av]);
        }
        let res2 = self.parse_more_args(first);
        proof {
            assert forall|o: Seq<Answer>| extends(o, self.answers()) implies #[trigger] arg_items(t, f, o, p0, k0) == exprs_out(res2, self.at(), self.answers().len()) by {
                assert(extends(o, a1));
                assert(expression(t, f, o, p0, k0) == (Ok::<(ExprView, int), Seq<char>>((av, q1)), a1.len()));
                assert(more_args(t, f, o, seq![av], q1, a1.len()) == exprs_out(res2, self.at(), self.answers().len()));
            }
        }
        res2
    }

    /// The arguments after the first, as long as a comma follows.
    pub(crate) fn parse_more_args(&mut self, a0: Vec<Expr>) -> (r: Result<Vec<Expr>, String>)
        requires
            old(self).wf(),
        ensures
            final(self).wf(),
            old(self).later(*final(self)),
            old(self).at() <= final(self).at(),
            forall|o: Seq<Answer>|
                extends(o, final(self).answers()) ==> #[trigger] more_args(
                    old(self).toks(),
                    old(self).file(),
                    o,
                    exprs_deep(a0@), old(self).at(),
                    old(self).answers().len(),
                ) == exprs_out(r, final(self).at(), final(self).answers().len()),
        decreases old(self).toks().len() - old(self).at(), 7int,
    {
        let ghost t = self.toks();
        let ghost f = self.file();
        let ghost p0 = self.at();
        let ghost k0 = self.answers().len();
        let ghost init = exprs_deep(a0@);
        let mut args = a0;
        loop
            invariant
                self.wf(),
                old(self).later(*self),
                t == self.toks(),
                f == self.file(),
                t == old(self).toks(),
                f == old(self).file(),
                p0 == old(self).at(),
                k0 == old(self).answers().len(),
                init == exprs_deep(a0@),
                p0 <= self.at(),
                forall|o: Seq<Answer>|
                    extends(o, self.answers()) ==> #[trigger] more_args(t, f, o, init, p0, k0)
                        == more_args(t, f, o, exprs_deep(args@), self.at(), self.answers().len()),
            decreases self.toks().len() - self.at(),
        {
            let ghost p = self.at();
            let ghost k = self.answers().len();
            let ghost acc = exprs_deep(args@);
            let ghost ap = self.answers();
            self.skip_newlines();
            let ghost q = self.at();
            proof {
                lemma_skip_nl(t, p);
            }
            if !self.cur_is(Token::Comma) {
                let r = Ok(args);
                proof {
                    assert forall|o: Seq<Answer>| extends(o, self.answers()) implies #[trigger] more_args(t, f, o, init, p0, k0) == exprs_out(r, self.at(), self.answers().len()) by {
                        assert(more_args(t, f, o, acc, p, k) == exprs_out(r, self.at(), self.answers().len()));
                    }
                }
                return r;
            }
            self.advance();
            self.skip_newlines();
            let ghost q2 = self.at();
            proof {
                lemma_skip_nl(t, q + 1);
            }
            let res = self.parse_expression();
            match res {
                Ok(a) => {
                    let ghost av = expr_deep(a);
                    let ghost prev = args@;
                    args.push(a);
                    proof {
                        lemma_exprs_push(prev, a);
                        assert forall|o: Seq<Answer>| extends(o, self.answers()) implies #[trigger] more_args(t, f, o, init, p0, k0)
                            == more_args(t, f, o, exprs_deep(args@), self.at(), self.answers().len()) by {
                            assert(extends(o, ap));
                            assert(expression(t, f, o, q2, k) == (Ok::<(ExprView, int), Seq<char>>((av, self.at())), self.answers().len()));
                            assert(more_args(t, f, o, acc, p, k) == more_args(t, f, o, acc.push(av), self.at(), self.answers().len()));
                        }
                    }
                },
                Err(e) => {
                    let r = Err(e);
                    proof {
                        assert forall|o: Seq<Answer>| extends(o, self.answers()) implies #[trigger] more_args(t, f, o, init, p0, k0) == exprs_out(r, self.at(), self.answers().len()) by {
                            assert(extends(o, ap));
                            assert(expression(t, f, o, q2, k) == expr_out(res, self.at(), self.answers().len()));
                            assert(more_args(t, f, o, acc, p, k) == exprs_out(r, self.at(), self.answers().len()));
                        }
                    }
                    return r;
                },
            }
        }
    }
}

} // verus!
