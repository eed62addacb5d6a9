//! The parser's statements: flow control, returns and blocks.
use vstd::prelude::*;
use crate::ast::{
    Expr, ExprView, Literal, expr_deep, exprs_deep, opt_deep, lemma_exprs_len,
    lemma_exprs_push,
};
use crate::types::TokenData;
use crate::lexer::Token;
use crate::parser::{Parser, expr_out, exprs_out, extends};
use crate::parser_spec::{
    Answer, statement, flow_control, expression, block, block_items, return_expr, flow_rest,
    flow_rescue, lemma_skip_nl, macro_use, consume,
};

verus! {

impl<F: Fn(String) -> Result<Expr, String>> Parser<F> {
    /// A statement: a flow control, a return, an `@` macro or an expression.
    pub(crate) fn parse_statement(&mut self) -> (r: Result<Expr, String>)
        requires
            old(self).wf(),
        ensures
            final(self).wf(),
            old(self).later(*final(self)),
            old(self).at() <= final(self).at(),
            r is Ok ==> old(self).at() < final(self).at(),
            forall|o: Seq<Answer>|
                extends(o, final(self).answers()) ==> #[trigger] statement(
                    old(self).toks(),
                    old(self).file(),
                    o,
                    old(self).at(),
                    old(self).answers().len(),
                ) == expr_out(r, final(self).at(), final(self).answers().len()),
        decreases old(self).toks().len() - old(self).at(), 6int,
    {
        let ghost t = self.toks();
        let ghost f = self.file();
        let ghost p0 = self.at();
        let ghost k0 = self.answers().len();
        self.skip_newlines();
        let ghost q = self.at();
        proof {
            lemma_skip_nl(t, p0);
        }
        if self.cur_is(Token::Question) {
            let r = self.parse_flow_control();
            proof {
                assert forall|o: Seq<Answer>| extends(o, self.answers()) implies #[trigger] statement(t, f, o, p0, k0) == expr_out(r, self.at(), self.answers().len()) by {
                    assert(flow_control(t, f, o, q, k0) == expr_out(r, self.at(), self.answers().len()));
                }
            }
            r
        } else if self.cur_is(Token::Caret) {
            let r = self.parse_return();
            proof {
                assert forall|o: Seq<Answer>| extends(o, self.answers()) implies #[trigger] statement(t, f, o, p0, k0) == expr_out(r, self.at(), self.answers().len()) by {
                    assert(return_expr(t, f, o, q, k0) == expr_out(r, self.at(), self.answers().len()));
                }
            }
            r
        } else if self.cur_is(Token::At) {
            let r = self.parse_include();
            proof {
                assert forall|o: Seq<Answer>| extends(o, self.answers()) implies #[trigger] statement(t, f, o, p0, k0) == expr_out(r, self.at(), self.answers().len()) by {
                    assert(macro_use(t, f, o, q, k0) == expr_out(r, self.at(), self.answers().len()));
                }
            }
            r
        } else {
            let r = self.parse_expression();
            proof {
                assert forall|o: Seq<Answer>| extends(o, self.answers()) implies #[trigger] statement(t, f, o, p0, k0) == expr_out(r, self.at(), self.answers().len()) by {
                    assert(expression(t, f, o, q, k0) == expr_out(r, self.at(), self.answers().len()));
                }
            }
            r
        }
    }

    /// A flow control `? (cond) { .. }`, with an optional fallback `: { .. }`
    /// and an optional rescue `~ (name) { .. }`.
    pub(crate) fn parse_flow_control(&mut self) -> (r: Result<Expr, String>)
        requires
            old(self).wf(),
        ensures
            final(self).wf(),
            old(self).later(*final(self)),
            old(self).at() <= final(self).at(),
            r is Ok ==> old(self).at() < final(self).at(),
            forall|o: Seq<Answer>|
                extends(o, final(self).answers()) ==> #[trigger] flow_control(
                    old(self).toks(),
                    old(self).file(),
                    o,
                    old(self).at(),
                    old(self).answers().len(),
                ) == expr_out(r, final(self).at(), final(self).answers().len()),
        decreases old(self).toks().len() - old(self).at(), 1int,
    {
        let ghost t = self.toks();
        let ghost f = self.file();
        let ghost p0 = self.at();
        let ghost k0 = self.answers().len();
        let td = match self.consume(Token::Question) {
            Ok(td) => td,
            Err(e) => {
                let r = Err(e);
                proof {
                    assert forall|o: Seq<Answer>| extends(o, self.answers()) implies #[trigger] flow_control(t, f, o, p0, k0) == expr_out(r, self.at(), self.answers().len()) by {
                    }
                }
                return r;
            },
        };
        match self.consume(Token::LParen) {
            Ok(_) => {},
            Err(e) => {
                let r = Err(e);
                proof {
                    assert forall|o: Seq<Answer>| extends(o, self.answers()) implies #[trigger] flow_control(t, f, o, p0, k0) == expr_out(r, self.at(), self.answers().len()) by {
                    }
                }
                return r;
            },
        }
        let p2 = self.position();
        let ghost a2 = self.answers();
        let condition = match self.parse_expression() {
            Ok(c) => c,
            Err(e) => {
                let r = Err(e);
                proof {
                    assert forall|o: Seq<Answer>| extends(o, self.answers()) implies #[trigger] flow_control(t, f, o, p0, k0) == expr_out(r, self.at(), self.answers().len()) by {
                        assert(expression(t, f, o, p2 as int, k0) == expr_out(r, self.at(), self.answers().len()));
                    }
                }
                return r;
            },
        };
        let ghost cv = expr_deep(condition);
        let ghost p3 = self.at();
        let ghost a3 = self.answers();
        match self.consume(Token::RParen) {
            Ok(_) => {},
            Err(e) => {
                let r = Err(e);
                proof {
                    assert forall|o: Seq<Answer>| extends(o, self.answers()) implies #[trigger] flow_control(t, f, o, p0, k0) == expr_out(r, self.at(), self.answers().len()) by {
                        assert(expression(t, f, o, p2 as int, k0) == (Ok::<(ExprView, int), Seq<char>>((cv, p3)), a3.len()));
                    }
                }
                return r;
            },
        }
        let p4 = self.position();
        let success = match self.parse_block() {
            Ok(b) => b,
            Err(e) => {
                let r = Err(e);
                proof {
                    assert forall|o: Seq<Answer>| extends(o, self.answers()) implies #[trigger] flow_control(t, f, o, p0, k0) == expr_out(r, self.at(), self.answers().len()) by {
                        assert(expression(t, f, o, p2 as int, k0) == (Ok::<(ExprView, int), Seq<char>>((cv, p3)), a3.len()));
                        assert(block(t, f, o, p4 as int, a3.len()) == expr_out(r, self.at(), self.answers().len()));
                    }
                }
                return r;
            },
        };
        let ghost sv = expr_deep(success);
        let ghost p5 = self.at();
        let ghost a5 = self.answers();
        let ghost tdv = td@;
        let r = self.parse_flow_rest(condition, success, td);
        proof {
            assert forall|o: Seq<Answer>| extends(o, self.answers()) implies #[trigger] flow_control(t, f, o, p0, k0) == expr_out(r, self.at(), self.answers().len()) by {
                assert(expression(t, f, o, p2 as int, k0) == (Ok::<(ExprView, int), Seq<char>>((cv, p3)), a3.len()));
                assert(block(t, f, o, p4 as int, a3.len()) == (Ok::<(ExprView, int), Seq<char>>((sv, p5)), a5.len()));
                assert(flow_rest(t, f, o, cv, sv, tdv, p5, a5.len()) == expr_out(r, self.at(), self.answers().len()));
            }
        }
        r
    }

    /// The part of a flow control after its first block: the optional
    /// fallback `: { .. }`, then the optional rescue.
    pub(crate) fn parse_flow_rest(&mut self, condition: Expr, success: Expr, td: TokenData) -> (r: Result<Expr, String>)
        requires
            old(self).wf(),
        ensures
            final(self).wf(),
            old(self).later(*final(self)),
            old(self).at() <= final(self).at(),
            forall|o: Seq<Answer>|
                extends(o, final(self).answers()) ==> #[trigger] flow_rest(
                    old(self).toks(),
                    old(self).file(),
                    o,
                    expr_deep(condition), expr_deep(success), td@, old(self).at(),
                    old(self).answers().len(),
                ) == expr_out(r, final(self).at(), final(self).answers().len()),
        decreases old(self).toks().len() - old(self).at(), 2int,
    {
        let ghost t = self.toks();
        let ghost f = self.file();
        let ghost p0 = self.at();
        let ghost k0 = self.answers().len();
        let ghost cv = expr_deep(condition);
        let ghost sv = expr_deep(success);
        let ghost tdv = td@;
        let saved_pos = self.position();
        self.skip_newlines();
        let ghost s = self.at();
        proof {
            lemma_skip_nl(t, p0);
        }
        let mut fallback: Option<Box<Expr>> = None;
        if self.cur_is(Token::Colon) {
            match self.consume(Token::Colon) {
                Ok(_) => {},
                Err(e) => {
                    let r = Err(e);
                    proof {
                        assert forall|o: Seq<Answer>| extends(o, self.answers()) implies #[trigger] flow_rest(t, f, o, cv, sv, tdv, p0, k0) == expr_out(r, self.at(), self.answers().len()) by {
                        }
                    }
                    return r;
                },
            }
            match self.parse_block() {
                Ok(b) => {
                    fallback = Some(Box::new(b));
                },
                Err(e) => {
                    let r = Err(e);
                    proof {
                        assert forall|o: Seq<Answer>| extends(o, self.answers()) implies #[trigger] flow_rest(t, f, o, cv, sv, tdv, p0, k0) == expr_out(r, self.at(), self.answers().len()) by {
                            assert(block(t, f, o, s + 1, k0) == expr_out(r, self.at(), self.answers().len()));
                        }
                    }
                    return r;
                },
            }
        } else {
            self.reset_to(saved_pos);
        }
        let ghost fbv = opt_deep(fallback);
        let ghost p6 = self.at();
        let ghost a6 = self.answers();
        proof {
            assert(fbv is Some ==> block(t, f, a6, s + 1, k0) == (Ok::<(ExprView, int), Seq<char>>((*fbv->0, p6)), a6.len()));
        }
        let r = self.parse_flow_rescue(condition, success, fallback, td);
        proof {
            assert forall|o: Seq<Answer>| extends(o, self.answers()) implies #[trigger] flow_rest(t, f, o, cv, sv, tdv, p0, k0) == expr_out(r, self.at(), self.answers().len()) by {
                if fbv is Some {
                    assert(block(t, f, o, s + 1, k0) == (Ok::<(ExprView, int), Seq<char>>((*fbv->0, p6)), a6.len()));
                }
                assert(flow_rescue(t, f, o, cv, sv, fbv, tdv, p6, a6.len()) == expr_out(r, self.at(), self.answers().len()));
            }
        }
        r
    }

    /// The end of a flow control: an optional rescue `~ (name) { .. }`.
    #[verifier::rlimit(40)]
    pub(crate) fn parse_flow_rescue(
        &mut self,
        condition: Expr,
        success: Expr,
        fallback: Option<Box<Expr>>,
        td: TokenData,
    ) -> (r: Result<Expr, String>)
        requires
            old(self).wf(),
        ensures
            final(self).wf(),
            old(self).later(*final(self)),
            old(self).at() <= final(self).at(),
            forall|o: Seq<Answer>|
                extends(o, final(self).answers()) ==> #[trigger] flow_rescue(
                    old(self).toks(),
                    old(self).file(),
                    o,
                    expr_deep(condition), expr_deep(success), opt_deep(fallback), td@, old(self).at(),
                    old(self).answers().len(),
                ) == expr_out(r, final(self).at(), final(self).answers().len()),
        decreases old(self).toks().len() - old(self).at(), 1int,
    {
        let ghost t = self.toks();
        let ghost f = self.file();
        let ghost p0 = self.at();
        let ghost k0 = self.answers().len();
        let ghost cv = expr_deep(condition);
        let ghost sv = expr_deep(success);
        let ghost fbv = opt_deep(fallback);
        let ghost tdv = td@;
        self.skip_newlines();
        let ghost s2 = self.at();
        proof {
            lemma_skip_nl(t, p0);
        }
        if !self.cur_is(Token::Rescue) {
            let r = Ok(
                Expr::FlowControl {
                    condition: Box::new(condition),
                    success: Box::new(success),
                    fallback,
                    rescue: None,
                    catch_var: None,
                    token: td,
                },
            );
            assert(opt_deep(None::<Box<Expr>>) == None::<Box<ExprView>>);
            proof {
                assert forall|o: Seq<Answer>| extends(o, self.answers()) implies #[trigger] flow_rescue(t, f, o, cv, sv, fbv, tdv, p0, k0) == expr_out(r, self.at(), self.answers().len()) by {
                }
            }
            return r;
        }
        self.advance();
        match self.consume(Token::LParen) {
            Ok(_) => {},
            Err(e) => {
                let r = Err(e);
                proof {
                    assert forall|o: Seq<Answer>| extends(o, self.answers()) implies #[trigger] flow_rescue(t, f, o, cv, sv, fbv, tdv, p0, k0) == expr_out(r, self.at(), self.answers().len()) by {
                    }
                }
                return r;
            },
        }
        let var = match self.consume_identifier() {
            Ok(v) => v,
            Err(e) => {
                let r = Err(e);
                proof {
                    assert forall|o: Seq<Answer>| extends(o, self.answers()) implies #[trigger] flow_rescue(t, f, o, cv, sv, fbv, tdv, p0, k0) == expr_out(r, self.at(), self.answers().len()) by {
                    }
                }
                return r;
            },
        };
        match self.consume(Token::RParen) {
            Ok(_) => {},
            Err(e) => {
                let r = Err(e);
                proof {
                    assert forall|o: Seq<Answer>| extends(o, self.answers()) implies #[trigger] flow_rescue(t, f, o, cv, sv, fbv, tdv, p0, k0) == expr_out(r, self.at(), self.answers().len()) by {
                    }
                }
                return r;
            },
        }
        let q3 = self.position();
        let res = self.parse_block();
        proof {
            if let Ok(b) = &res {
                assert(opt_deep(Some(Box::new(*b))) == Some(Box::new(expr_deep(*b))));
            }
        }
        let r = match res {
            Ok(b) => Ok(
                Expr::FlowControl {
                    condition: Box::new(condition),
                    success: Box::new(success),
                    fallback,
                    rescue: Some(Box::new(b)),
                    catch_var: Some(var),
                    token: td,
                },
            ),
            Err(e) => Err(e),
        };
        proof {
            assert forall|o: Seq<Answer>| extends(o, self.answers()) implies #[trigger] flow_rescue(t, f, o, cv, sv, fbv, tdv, p0, k0) == expr_out(r, self.at(), self.answers().len()) by {
                assert(block(t, f, o, q3 as int, k0) == expr_out(res, self.at(), self.answers().len()));
            }
        }
        r
    }

    /// A return `^ value`, or `^` alone.
    pub(crate) fn parse_return(&mut self) -> (r: Result<Expr, String>)
        requires
            old(self).wf(),
        ensures
            final(self).wf(),
            old(self).later(*final(self)),
            old(self).at() <= final(self).at(),
            r is Ok ==> old(self).at() < final(self).at(),
            forall|o: Seq<Answer>|
                extends(o, final(self).answers()) ==> #[trigger] return_expr(
                    old(self).toks(),
                    old(self).file(),
                    o,
                    old(self).at(),
                    old(self).answers().len(),
                ) == expr_out(r, final(self).at(), final(self).answers().len()),
        decreases old(self).toks().len() - old(self).at(), 1int,
    {
        let ghost t = self.toks();
        let ghost f = self.file();
        let ghost p0 = self.at();
        let ghost k0 = self.answers().len();
        let td = match self.consume(Token::Caret) {
            Ok(td) => td,
            Err(e) => {
                return Err(e);
            },
        };
        let p1 = self.position();
        let has_value = !self.is_eof() && !(self.cur_is(Token::Newline) || self.cur_is(Token::RBrace)
            || self.cur_is(Token::RBracket) || self.cur_is(Token::Comma) || self.cur_is(
            Token::RParen,
        ));
        if has_value {
            let res = self.parse_expression();
            let r = match res {
                Ok(v) => Ok(Expr::UnOp("^".to_owned(), Box::new(v), td)),
                Err(e) => Err(e),
            };
            proof {
                assert forall|o: Seq<Answer>| extends(o, self.answers()) implies #[trigger] return_expr(t, f, o, p0, k0) == expr_out(r, self.at(), self.answers().len()) by {
                    assert(expression(t, f, o, p1 as int, k0) == expr_out(res, self.at(), self.answers().len()));
                }
            }
            r
        } else {
            let val = Expr::Literal(Literal::Void, td.duplicate());
            assert(expr_deep(val) == ExprView::Literal(crate::ast::LiteralView::Void, td@));
            let r = Ok(Expr::UnOp("^".to_owned(), Box::new(val), td));
            proof {
                assert forall|o: Seq<Answer>| extends(o, self.answers()) implies #[trigger] return_expr(t, f, o, p0, k0) == expr_out(r, self.at(), self.answers().len()) by {
                }
            }
            r
        }
    }

    /// A block `{ statements }`.
    pub(crate) fn parse_block(&mut self) -> (r: Result<Expr, String>)
        requires
            old(self).wf(),
        ensures
            final(self).wf(),
            old(self).later(*final(self)),
            old(self).at() <= final(self).at(),
            r is Ok ==> old(self).at() < final(self).at(),
            forall|o: Seq<Answer>|
                extends(o, final(self).answers()) ==> #[trigger] block(
                    old(self).toks(),
                    old(self).file(),
                    o,
                    old(self).at(),
                    old(self).answers().len(),
                ) == expr_out(r, final(self).at(), final(self).answers().len()),
        decreases old(self).toks().len() - old(self).at(), 1int,
    {
        let ghost t = self.toks();
        let ghost f = self.file();
        let ghost p0 = self.at();
        let ghost k0 = self.answers().len();
        let td = match self.consume(Token::LBrace) {
            Ok(td) => td,
            Err(e) => {
                return Err(e);
            },
        };
        let p1 = self.position();
        let res = self.parse_block_items(Vec::new());
        proof {
            lemma_exprs_len(Seq::<Expr>::empty());
            assert(exprs_deep(Seq::<Expr>::empty()) =~= Seq::<ExprView>::empty());
        }
        let stmts = match res {
            Ok(s) => s,
            Err(e) => {
                let r = Err(e);
                proof {
                    assert forall|o: Seq<Answer>| extends(o, self.answers()) implies #[trigger] block(t, f, o, p0, k0) == expr_out(r, self.at(), self.answers().len()) by {
                        assert(block_items(t, f, o, Seq::empty(), p1 as int, k0) == exprs_out(res, self.at(), self.answers().len()));
                    }
                }
                return r;
            },
        };
        let ghost sv = exprs_deep(stmts@);
        let ghost pr = self.at();
        let ghost ar = self.answers();
        let r = match self.consume(Token::RBrace) {
            Ok(_) => Ok(Expr::Block(stmts, td)),
            Err(e) => Err(e),
        };
        proof {
            assert forall|o: Seq<Answer>| extends(o, self.answers()) implies #[trigger] block(t, f, o, p0, k0) == expr_out(r, self.at(), self.answers().len()) by {
                assert(block_items(t, f, o, Seq::empty(), p1 as int, k0) == (Ok::<(Seq<ExprView>, int), Seq<char>>((sv, pr)), ar.len()));
            }
        }
        r
    }

    /// The statements of a block, up to its `}` or the end.
    pub(crate) fn parse_block_items(&mut self, done: Vec<Expr>) -> (r: Result<Vec<Expr>, String>)
        requires
            old(self).wf(),
        ensures
            final(self).wf(),
            old(self).later(*final(self)),
            old(self).at() <= final(self).at(),
            forall|o: Seq<Answer>|
                extends(o, final(self).answers()) ==> #[trigger] block_items(
                    old(self).toks(),
                    old(self).file(),
                    o,
                    exprs_deep(done@), old(self).at(),
                    old(self).answers().len(),
                ) == exprs_out(r, final(self).at(), final(self).answers().len()),
        decreases old(self).toks().len() - old(self).at(), 7int,
    {
        let ghost t = self.toks();
        let ghost f = self.file();
        let ghost p0 = self.at();
        let ghost k0 = self.answers().len();
        let ghost init = exprs_deep(done@);
        let mut stmts = done;
        loop
            invariant
                self.wf(),
                old(self).later(*self),
                t == self.toks(),
                f == self.file(),
                t == old(self).toks(),
                f == old(self).file(),
                p0 == old(self).at(),
                k0 == old(self).answers().len(),
                init == exprs_deep(done@),
                p0 <= self.at(),
                forall|o: Seq<Answer>|
                    extends(o, self.answers()) ==> #[trigger] block_items(t, f, o, init, p0, k0)
                        == block_items(t, f, o, exprs_deep(stmts@), self.at(), self.answers().len()),
            decreases self.toks().len() - self.at(),
        {
            let ghost p = self.at();
            let ghost k = self.answers().len();
            let ghost acc = exprs_deep(stmts@);
            let ghost ap = self.answers();
            if self.cur_is(Token::RBrace) || self.is_eof() {
                let r = Ok(stmts);
                proof {
                    assert forall|o: Seq<Answer>| extends(o, self.answers()) implies #[trigger] block_items(t, f, o, init, p0, k0) == exprs_out(r, self.at(), self.answers().len()) by {
                        assert(block_items(t, f, o, acc, p, k) == exprs_out(r, self.at(), self.answers().len()));
                    }
                }
                return r;
            }
            self.skip_newlines();
            let ghost q = self.at();
            proof {
                lemma_skip_nl(t, p);
            }
            if self.cur_is(Token::RBrace) {
                let r = Ok(stmts);
                proof {
                    assert forall|o: Seq<Answer>| extends(o, self.answers()) implies #[trigger] block_items(t, f, o, init, p0, k0) == exprs_out(r, self.at(), self.answers().len()) by {
                        assert(block_items(t, f, o, acc, p, k) == exprs_out(r, self.at(), self.answers().len()));
                    }
                }
                return r;
            }
            let res = self.parse_statement();
            match res {
                Ok(s) => {
                    let ghost sv = expr_deep(s);
                    let ghost prev = stmts@;
                    stmts.push(s);
                    proof {
                        lemma_exprs_push(prev, s);
                        assert forall|o: Seq<Answer>| extends(o, self.answers()) implies #[trigger] block_items(t, f, o, init, p0, k0)
                            == block_items(t, f, o, exprs_deep(stmts@), self.at(), self.answers().len()) by {
                            assert(extends(o, ap));
                            assert(statement(t, f, o, q, k) == (Ok::<(ExprView, int), Seq<char>>((sv, self.at())), self.answers().len()));
                            assert(block_items(t, f, o, acc, p, k) == block_items(t, f, o, acc.push(sv), self.at(), self.answers().len()));
                        }
                    }
                },
                Err(e) => {
                    let r = Err(e);
                    proof {
                        assert forall|o: Seq<Answer>| extends(o, self.answers()) implies #[trigger] block_items(t, f, o, init, p0, k0) == exprs_out(r, self.at(), self.answers().len()) by {
                            assert(extends(o, ap));
                            assert(statement(t, f, o, q, k) == expr_out(res, self.at(), self.answers().len()));
                            assert(block_items(t, f, o, acc, p, k) == exprs_out(r, self.at(), self.answers().len()));
                        }
                    }
                    return r;
                },
            }
        }
    }
}

} // verus!
