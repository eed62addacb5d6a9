//! The parser's task definitions, parameters, object and array literals.
use vstd::prelude::*;
use crate::ast::{
    Expr, ExprView, Param, ParamView, expr_deep, exprs_deep, fields_deep, params_deep,
    opt_deep, lemma_exprs_len, lemma_exprs_push, lemma_params_push, param_deep,
};
use crate::lexer::Token;
use crate::parser::{
    Parser, expr_out, exprs_out, extends, fields_out, keys_unique, param_out, params_out,
    set_field_exec,
};
use crate::parser_spec::{
    Answer, expression, func_def, param_items, more_params, param, block, object_literal,
    object_items, array_literal, array_items, lemma_skip_nl, consume, set_field,
};

verus! {

impl<F: Fn(String) -> Result<Expr, String>> Parser<F> {
    /// A task definition `(params) { body }`.
    pub(crate) fn parse_func_def(&mut self) -> (r: Result<Expr, String>)
        requires
            old(self).wf(),
        ensures
            final(self).wf(),
            old(self).later(*final(self)),
            old(self).at() <= final(self).at(),
            r is Ok ==> old(self).at() < final(self).at(),
            forall|o: Seq<Answer>|
                extends(o, final(self).answers()) ==> #[trigger] func_def(
                    old(self).toks(),
                    old(self).file(),
                    o,
                    old(self).at(),
                    old(self).answers().len(),
                ) == expr_out(r, final(self).at(), final(self).answers().len()),
        decreases old(self).toks().len() - old(self).at(), 1int,
    {
        let ghost t = self.toks();
        let ghost f = self.file();
        let ghost p0 = self.at();
        let ghost k0 = self.answers().len();
        let td = self.peek_td();
        match self.consume(Token::LParen) {
            Ok(_) => {},
            Err(e) => {
                let r = Err(e);
                proof {
                    assert forall|o: Seq<Answer>| extends(o, self.answers()) implies #[trigger] func_def(t, f, o, p0, k0) == expr_out(r, self.at(), self.answers().len()) by {
                    }
                }
                return r;
            },
        }
        let ghost p1 = self.at();
        let res = self.parse_param_items();
        let params = match res {
            Ok(ps) => ps,
            Err(e) => {
                let r = Err(e);
                proof {
                    assert forall|o: Seq<Answer>| extends(o, self.answers()) implies #[trigger] func_def(t, f, o, p0, k0) == expr_out(r, self.at(), self.answers().len()) by {
                        assert(param_items(t, f, o, p1, k0) == params_out(res, self.at(), self.answers().len()));
                    }
                }
                return r;
            },
        };
        let ghost pv = params_deep(params@);
        let ghost q = self.at();
        let ghost a1 = self.answers();
        match self.consume(Token::RParen) {
            Ok(_) => {},
            Err(e) => {
                let r = Err(e);
                proof {
                    assert forall|o: Seq<Answer>| extends(o, self.answers()) implies #[trigger] func_def(t, f, o, p0, k0) == expr_out(r, self.at(), self.answers().len()) by {
                        assert(param_items(t, f, o, p1, k0) == (Ok::<(Seq<ParamView>, int), Seq<char>>((pv, q)), a1.len()));
                    }
                }
                return r;
            },
        }
        let ghost r1 = self.at();
        let res2 = self.parse_block();
        let r = match res2 {
            Ok(body) => Ok(Expr::FuncDef(params, Box::new(body), td)),
            Err(e) => Err(e),
        };
        proof {
            assert forall|o: Seq<Answer>| extends(o, self.answers()) implies #[trigger] func_def(t, f, o, p0, k0) == expr_out(r, self.at(), self.answers().len()) by {
                assert(extends(o, a1));
                assert(param_items(t, f, o, p1, k0) == (Ok::<(Seq<ParamView>, int), Seq<char>>((pv, q)), a1.len()));
                assert(block(t, f, o, r1, a1.len()) == expr_out(res2, self.at(), self.answers().len()));
            }
        }
        r
    }

    /// The parameters of a task definition: none when `)` follows, else
    /// parameters separated by commas.
    pub(crate) fn parse_param_items(&mut self) -> (r: Result<Vec<Param>, String>)
        requires
            old(self).wf(),
        ensures
            final(self).wf(),
            old(self).later(*final(self)),
            old(self).at() <= final(self).at(),
            forall|o: Seq<Answer>|
                extends(o, final(self).answers()) ==> #[trigger] param_items(
                    old(self).toks(),
                    old(self).file(),
                    o,
                    old(self).at(),
                    old(self).answers().len(),
                ) == params_out(r, final(self).at(), final(self).answers().len()),
        decreases old(self).toks().len() - old(self).at(), 2int,
    {
        let ghost t = self.toks();
        let ghost f = self.file();
        let ghost p0 = self.at();
        let ghost k0 = self.answers().len();
        if self.cur_is(Token::RParen) {
            let r = Ok(Vec::new());
            proof {
                assert(params_deep(Seq::<Param>::empty()) =~= Seq::<ParamView>::empty());
            }
            proof {
                assert forall|o: Seq<Answer>| extends(o, self.answers()) implies #[trigger] param_items(t, f, o, p0, k0) == params_out(r, self.at(), self.answers().len()) by {
                }
            }
            return r;
        }
        let res = self.parse_param();
        let pa = match res {
            Ok(pa) => pa,
            Err(e) => {
                let r = Err(e);
                proof {
                    assert forall|o: Seq<Answer>| extends(o, self.answers()) implies #[trigger] param_items(t, f, o, p0, k0) == params_out(r, self.at(), self.answers().len()) by {
                        assert(param(t, f, o, p0, k0) == param_out(res, self.at(), self.answers().len()));
                    }
                }
                return r;
            },
        };
        let ghost pav = param_deep(pa);
        let ghost q1 = self.at();
        let ghost a1 = self.answers();
        let mut first: Vec<Param> = Vec::new();
        first.push(pa);
        proof {
            lemma_params_push(Seq::<Param>::empty(), pa);
            assert(params_deep(Seq::<Param>::empty()) =~= Seq::<ParamView>::empty());
            assert(params_deep(first@) =~= seq![pav]);
        }
        let res2 = self.parse_more_params(first);
        proof {
            assert forall|o: Seq<Answer>| extends(o, self.answers()) implies #[trigger] param_items(t, f, o, p0, k0) == params_out(res2, self.at(), self.answers().len()) by {
                assert(extends(o, a1));
                assert(param(t, f, o, p0, k0) == (Ok::<(ParamView, int), Seq<char>>((pav, q1)), a1.len()));
                assert(more_params(t, f, o, seq![pav], q1, a1.len()) == params_out(res2, self.at(), self.answers().len()));
            }
        }
        res2
    }

    /// The parameters after the first, as long as a comma follows.
    pub(crate) fn parse_more_params(&mut self, ps0: Vec<Param>) -> (r: Result<Vec<Param>, String>)
        requires
            old(self).wf(),
        ensures
            final(self).wf(),
            old(self).later(*final(self)),
            old(self).at() <= final(self).at(),
            forall|o: Seq<Answer>|
                extends(o, final(self).answers()) ==> #[trigger] more_params(
                    old(self).toks(),
                    old(self).file(),
                    o,
                    params_deep(ps0@), old(self).at(),
                    old(self).answers().len(),
                ) == params_out(r, final(self).at(), final(self).answers().len()),
        decreases old(self).toks().len() - old(self).at(), 7int,
    {
        let ghost t = self.toks();
        let ghost f = self.file();
        let ghost p0 = self.at();
        let ghost k0 = self.answers().len();
        let ghost init = params_deep(ps0@);
        let mut params = ps0;
        loop
            invariant
                self.wf(),
                old(self).later(*self),
                t == self.toks(),
                f == self.file(),
                t == old(self).toks(),
                f == old(self).file(),
                p0 == old(self).at(),
                k0 == old(self).answers().len(),
                init == params_deep(ps0@),
                p0 <= self.at(),
                forall|o: Seq<Answer>|
                    extends(o, self.answers()) ==> #[trigger] more_params(t, f, o, init, p0, k0)
                        == more_params(t, f, o, params_deep(params@), self.at(), self.answers().len()),
            decreases self.toks().len() - self.at(),
        {
            let ghost p = self.at();
            let ghost k = self.answers().len();
            let ghost acc = params_deep(params@);
            let ghost ap = self.answers();
            if !self.cur_is(Token::Comma) {
                let r = Ok(params);
                proof {
                    assert forall|o: Seq<Answer>| extends(o, self.answers()) implies #[trigger] more_params(t, f, o, init, p0, k0) == params_out(r, self.at(), self.answers().len()) by {
                        assert(more_params(t, f, o, acc, p, k) == params_out(r, self.at(), self.answers().len()));
                    }
                }
                return r;
            }
            self.advance();
            let res = self.parse_param();
            match res {
                Ok(pa) => {
                    let ghost pav = param_deep(pa);
                    let ghost prev = params@;
                    params.push(pa);
                    proof {
                        lemma_params_push(prev, pa);
                        assert forall|o: Seq<Answer>| extends(o, self.answers()) implies #[trigger] more_params(t, f, o, init, p0, k0)
                            == more_params(t, f, o, params_deep(params@), self.at(), self.answers().len()) by {
                            assert(extends(o, ap));
                            assert(param(t, f, o, p + 1, k) == (Ok::<(ParamView, int), Seq<char>>((pav, self.at())), self.answers().len()));
                            assert(more_params(t, f, o, acc, p, k) == more_params(t, f, o, acc.push(pav), self.at(), self.answers().len()));
                        }
                    }
                },
                Err(e) => {
                    let r = Err(e);
                    proof {
                        assert forall|o: Seq<Answer>| extends(o, self.answers()) implies #[trigger] more_params(t, f, o, init, p0, k0) == params_out(r, self.at(), self.answers().len()) by {
                            assert(extends(o, ap));
                            assert(param(t, f, o, p + 1, k) == param_out(res, self.at(), self.answers().len()));
                            assert(more_params(t, f, o, acc, p, k) == params_out(r, self.at(), self.answers().len()));
                        }
                    }
                    return r;
                },
            }
        }
    }

    /// A parameter: `?name`, `name` or `name = default`.
    pub(crate) fn parse_param(&mut self) -> (r: Result<Param, String>)
        requires
            old(self).wf(),
        ensures
            final(self).wf(),
            old(self).later(*final(self)),
            old(self).at() <= final(self).at(),
            r is Ok ==> old(self).at() < final(self).at(),
            forall|o: Seq<Answer>|
                extends(o, final(self).answers()) ==> #[trigger] param(
                    old(self).toks(),
                    old(self).file(),
                    o,
                    old(self).at(),
                    old(self).answers().len(),
                ) == param_out(r, final(self).at(), final(self).answers().len()),
        decreases old(self).toks().len() - old(self).at(), 1int,
    {
        let ghost t = self.toks();
        let ghost f = self.file();
        let ghost p0 = self.at();
        let ghost k0 = self.answers().len();
        let mut is_optional = false;
        if self.cur_is(Token::Question) {
            self.advance();
            is_optional = true;
        }
        let ghost p1 = self.at();
        let name = match self.consume_identifier() {
            Ok(n) => n,
            Err(e) => {
                let r = Err(e);
                proof {
                    assert forall|o: Seq<Answer>| extends(o, self.answers()) implies #[trigger] param(t, f, o, p0, k0) == param_out(r, self.at(), self.answers().len()) by {
                    }
                }
                return r;
            },
        };
        let ghost p2 = self.at();
        if self.cur_is(Token::Assign) {
            self.advance();
            let res = self.parse_expression();
            let r = match res {
                Ok(v) => {
                    proof {
                        assert(opt_deep(Some(Box::new(v))) == Some(Box::new(expr_deep(v))));
                    }
                    Ok(Param { name, is_optional: true, default_value: Some(Box::new(v)) })
                },
                Err(e) => Err(e),
            };
            proof {
                assert forall|o: Seq<Answer>| extends(o, self.answers()) implies #[trigger] param(t, f, o, p0, k0) == param_out(r, self.at(), self.answers().len()) by {
                    assert(expression(t, f, o, p2 + 1, k0) == expr_out(res, self.at(), self.answers().len()));
                }
            }
            return r;
        }
        proof {
            assert(opt_deep(None::<Box<Expr>>) == None::<Box<ExprView>>);
        }
        let r = Ok(Param { name, is_optional, default_value: None });
        proof {
            assert forall|o: Seq<Answer>| extends(o, self.answers()) implies #[trigger] param(t, f, o, p0, k0) == param_out(r, self.at(), self.answers().len()) by {
            }
        }
        r
    }

    /// An object literal `{ key: value, .. }`.
    pub(crate) fn parse_object_literal(&mut self) -> (r: Result<Expr, String>)
        requires
            old(self).wf(),
        ensures
            final(self).wf(),
            old(self).later(*final(self)),
            old(self).at() <= final(self).at(),
            r is Ok ==> old(self).at() < final(self).at(),
            forall|o: Seq<Answer>|
                extends(o, final(self).answers()) ==> #[trigger] object_literal(
                    old(self).toks(),
                    old(self).file(),
                    o,
                    old(self).at(),
                    old(self).answers().len(),
                ) == expr_out(r, final(self).at(), final(self).answers().len()),
        decreases old(self).toks().len() - old(self).at(), 1int,
    {
        let ghost t = self.toks();
        let ghost f = self.file();
        let ghost p0 = self.at();
        let ghost k0 = self.answers().len();
        let td = match self.consume(Token::LBrace) {
            Ok(td) => td,
            Err(e) => {
                let r = Err(e);
                proof {
                    assert forall|o: Seq<Answer>| extends(o, self.answers()) implies #[trigger] object_literal(t, f, o, p0, k0) == expr_out(r, self.at(), self.answers().len()) by {
                    }
                }
                return r;
            },
        };
        let ghost p1 = self.at();
        proof {
            assert(fields_deep(Seq::<(String, Expr)>::empty()) =~= Seq::<(Seq<char>, ExprView)>::empty());
        }
        let res = self.parse_object_items(Vec::new());
        let fields = match res {
            Ok(s) => s,
            Err(e) => {
                let r = Err(e);
                proof {
                    assert forall|o: Seq<Answer>| extends(o, self.answers()) implies #[trigger] object_literal(t, f, o, p0, k0) == expr_out(r, self.at(), self.answers().len()) by {
                        assert(object_items(t, f, o, Seq::empty(), p1, k0) == fields_out(res, self.at(), self.answers().len()));
                    }
                }
                return r;
            },
        };
        let ghost fv = fields_deep(fields@);
        let ghost q = self.at();
        let ghost a1 = self.answers();
        let r = match self.consume(Token::RBrace) {
            Ok(_) => Ok(Expr::Object(fields, td)),
            Err(e) => Err(e),
        };
        proof {
            assert forall|o: Seq<Answer>| extends(o, self.answers()) implies #[trigger] object_literal(t, f, o, p0, k0) == expr_out(r, self.at(), self.answers().len()) by {
                assert(object_items(t, f, o, Seq::empty(), p1, k0) == (Ok::<(Seq<(Seq<char>, ExprView)>, int), Seq<char>>((fv, q)), a1.len()));
            }
        }
        r
    }

    /// The fields of an object literal, up to its `}` or the end.
    pub(crate) fn parse_object_items(&mut self, fs0: Vec<(String, Expr)>) -> (r: Result<Vec<(String, Expr)>, String>)
        requires
            old(self).wf(),
            keys_unique(fields_deep(fs0@)),
        ensures
            final(self).wf(),
            old(self).later(*final(self)),
            old(self).at() <= final(self).at(),
            forall|o: Seq<Answer>|
                extends(o, final(self).answers()) ==> #[trigger] object_items(
                    old(self).toks(),
                    old(self).file(),
                    o,
                    fields_deep(fs0@), old(self).at(),
                    old(self).answers().len(),
                ) == fields_out(r, final(self).at(), final(self).answers().len()),
        decreases old(self).toks().len() - old(self).at(), 7int,
    {
        let ghost t = self.toks();
        let ghost f = self.file();
        let ghost p0 = self.at();
        let ghost k0 = self.answers().len();
        let ghost init = fields_deep(fs0@);
        let mut fields = fs0;
        loop
            invariant
                self.wf(),
                old(self).later(*self),
                t == self.toks(),
                f == self.file(),
                t == old(self).toks(),
                f == old(self).file(),
                p0 == old(self).at(),
                k0 == old(self).answers().len(),
                init == fields_deep(fs0@),
                p0 <= self.at(),
                keys_unique(fields_deep(fields@)),
                forall|o: Seq<Answer>|
                    extends(o, self.answers()) ==> #[trigger] object_items(t, f, o, init, p0, k0)
                        == object_items(t, f, o, fields_deep(fields@), self.at(), self.answers().len()),
            decreases self.toks().len() - self.at(),
        {
            let ghost p = self.at();
            let ghost k = self.answers().len();
            let ghost acc = fields_deep(fields@);
            let ghost ap = self.answers();
            if self.cur_is(Token::RBrace) || self.is_eof() {
                let r = Ok(fields);
                proof {
                    assert forall|o: Seq<Answer>| extends(o, self.answers()) implies #[trigger] object_items(t, f, o, init, p0, k0) == fields_out(r, self.at(), self.answers().len()) by {
                        assert(object_items(t, f, o, acc, p, k) == fields_out(r, self.at(), self.answers().len()));
                    }
                }
                return r;
            }
            self.skip_newlines();
            let ghost q = self.at();
            proof {
                lemma_skip_nl(t, p);
            }
            if self.cur_is(Token::RBrace) {
                let r = Ok(fields);
                proof {
                    assert forall|o: Seq<Answer>| extends(o, self.answers()) implies #[trigger] object_items(t, f, o, init, p0, k0) == fields_out(r, self.at(), self.answers().len()) by {
                        assert(object_items(t, f, o, acc, p, k) == fields_out(r, self.at(), self.answers().len()));
                    }
                }
                return r;
            }
            let key = match self.consume_identifier() {
                Ok(k) => k,
                Err(e) => {
                    let r = Err(e);
                    proof {
                        assert forall|o: Seq<Answer>| extends(o, self.answers()) implies #[trigger] object_items(t, f, o, init, p0, k0) == fields_out(r, self.at(), self.answers().len()) by {
                            assert(object_items(t, f, o, acc, p, k) == fields_out(r, self.at(), self.answers().len()));
                        }
                    }
                    return r;
                },
            };
            match self.consume(Token::Colon) {
                Ok(_) => {},
                Err(e) => {
                    let r = Err(e);
                    proof {
                        assert forall|o: Seq<Answer>| extends(o, self.answers()) implies #[trigger] object_items(t, f, o, init, p0, k0) == fields_out(r, self.at(), self.answers().len()) by {
                            assert(object_items(t, f, o, acc, p, k) == fields_out(r, self.at(), self.answers().len()));
                        }
                    }
                    return r;
                },
            }
            let ghost q2 = self.at();
            let ghost kv = key@;
            let res = self.parse_expression();
            let value = match res {
                Ok(v) => v,
                Err(e) => {
                    let r = Err(e);
                    proof {
                        assert forall|o: Seq<Answer>| extends(o, self.answers()) implies #[trigger] object_items(t, f, o, init, p0, k0) == fields_out(r, self.at(), self.answers().len()) by {
                            assert(extends(o, ap));
                            assert(expression(t, f, o, q2, k) == expr_out(res, self.at(), self.answers().len()));
                            assert(object_items(t, f, o, acc, p, k) == fields_out(r, self.at(), self.answers().len()));
                        }
                    }
                    return r;
                },
            };
            let ghost vv = expr_deep(value);
            let ghost q3 = self.at();
            let ghost a3 = self.answers();
            set_field_exec(&mut fields, key, value);
            if self.cur_is(Token::Comma) {
                self.advance();
            }
            proof {
                assert forall|o: Seq<Answer>| extends(o, self.answers()) implies #[trigger] object_items(t, f, o, init, p0, k0)
                    == object_items(t, f, o, fields_deep(fields@), self.at(), self.answers().len()) by {
                    assert(extends(o, ap));
                    assert(expression(t, f, o, q2, k) == (Ok::<(ExprView, int), Seq<char>>((vv, q3)), a3.len()));
                    assert(object_items(t, f, o, acc, p, k) == object_items(t, f, o, set_field(acc, kv, vv), self.at(), self.answers().len()));
                }
            }
        }
    }

    /// An array literal `[ items ]`.
    pub(crate) fn parse_array_literal(&mut self) -> (r: Result<Expr, String>)
        requires
            old(self).wf(),
        ensures
            final(self).wf(),
            old(self).later(*final(self)),
            old(self).at() <= final(self).at(),
            r is Ok ==> old(self).at() < final(self).at(),
            forall|o: Seq<Answer>|
                extends(o, final(self).answers()) ==> #[trigger] array_literal(
                    old(self).toks(),
                    old(self).file(),
                    o,
                    old(self).at(),
                    old(self).answers().len(),
                ) == expr_out(r, final(self).at(), final(self).answers().len()),
        decreases old(self).toks().len() - old(self).at(), 1int,
    {
        let ghost t = self.toks();
        let ghost f = self.file();
        let ghost p0 = self.at();
        let ghost k0 = self.answers().len();
        let td = match self.consume(Token::LBracket) {
            Ok(td) => td,
            Err(e) => {
                let r = Err(e);
                proof {
                    assert forall|o: Seq<Answer>| extends(o, self.answers()) implies #[trigger] array_literal(t, f, o, p0, k0) == expr_out(r, self.at(), self.answers().len()) by {
                    }
                }
                return r;
            },
        };
        let ghost p1 = self.at();
        proof {
            lemma_exprs_len(Seq::<Expr>::empty());
            assert(exprs_deep(Seq::<Expr>::empty()) =~= Seq::<ExprView>::empty());
        }
        let res = self.parse_array_items(Vec::new());
        let items = match res {
            Ok(s) => s,
            Err(e) => {
                let r = Err(e);
                proof {
                    assert forall|o: Seq<Answer>| extends(o, self.answers()) implies #[trigger] array_literal(t, f, o, p0, k0) == expr_out(r, self.at(), self.answers().len()) by {
                        assert(array_items(t, f, o, Seq::empty(), p1, k0) == exprs_out(res, self.at(), self.answers().len()));
                    }
                }
                return r;
            },
        };
        let ghost iv = exprs_deep(items@);
        let ghost q = self.at();
        let ghost a1 = self.answers();
        let r = match self.consume(Token::RBracket) {
            Ok(_) => Ok(Expr::Array(items, td)),
            Err(e) => Err(e),
        };
        proof {
            assert forall|o: Seq<Answer>| extends(o, self.answers()) implies #[trigger] array_literal(t, f, o, p0, k0) == expr_out(r, self.at(), self.answers().len()) by {
                assert(array_items(t, f, o, Seq::empty(), p1, k0) == (Ok::<(Seq<ExprView>, int), Seq<char>>((iv, q)), a1.len()));
            }
        }
        r
    }

    /// The items of an array literal, up to its `]` or the end.
    pub(crate) fn parse_array_items(&mut self, is0: Vec<Expr>) -> (r: Result<Vec<Expr>, String>)
        requires
            old(self).wf(),
        ensures
            final(self).wf(),
            old(self).later(*final(self)),
            old(self).at() <= final(self).at(),
            forall|o: Seq<Answer>|
                extends(o, final(self).answers()) ==> #[trigger] array_items(
                    old(self).toks(),
                    old(self).file(),
                    o,
                    exprs_deep(is0@), old(self).at(),
                    old(self).answers().len(),
                ) == exprs_out(r, final(self).at(), final(self).answers().len()),
        decreases old(self).toks().len() - old(self).at(), 7int,
    {
        let ghost t = self.toks();
        let ghost f = self.file();
        let ghost p0 = self.at();
        let ghost k0 = self.answers().len();
        let ghost init = exprs_deep(is0@);
        let mut items = is0;
        loop
            invariant
                self.wf(),
                old(self).later(*self),
                t == self.toks(),
                f == self.file(),
                t == old(self).toks(),
                f == old(self).file(),
                p0 == old(self).at(),
                k0 == old(self).answers().len(),
                init == exprs_deep(is0@),
                p0 <= self.at(),
                forall|o: Seq<Answer>|
                    extends(o, self.answers()) ==> #[trigger] array_items(t, f, o, init, p0, k0)
                        == array_items(t, f, o, exprs_deep(items@), self.at(), self.answers().len()),
            decreases self.toks().len() - self.at(),
        {
            let ghost p = self.at();
            let ghost k = self.answers().len();
            let ghost acc = exprs_deep(items@);
            let ghost ap = self.answers();
            if self.cur_is(Token::RBracket) || self.is_eof() {
                let r = Ok(items);
                proof {
                    assert forall|o: Seq<Answer>| extends(o, self.answers()) implies #[trigger] array_items(t, f, o, init, p0, k0) == exprs_out(r, self.at(), self.answers().len()) by {
                        assert(array_items(t, f, o, acc, p, k) == exprs_out(r, self.at(), self.answers().len()));
                    }
                }
                return r;
            }
            self.skip_newlines();
            let ghost q = self.at();
            proof {
                lemma_skip_nl(t, p);
            }
            if self.cur_is(Token::RBracket) {
                let r = Ok(items);
                proof {
                    assert forall|o: Seq<Answer>| extends(o, self.answers()) implies #[trigger] array_items(t, f, o, init, p0, k0) == exprs_out(r, self.at(), self.answers().len()) by {
                        assert(array_items(t, f, o, acc, p, k) == exprs_out(r, self.at(), self.answers().len()));
                    }
                }
                return r;
            }
            let res = self.parse_expression();
            let v = match res {
                Ok(v) => v,
                Err(e) => {
                    let r = Err(e);
                    proof {
                        assert forall|o: Seq<Answer>| extends(o, self.answers()) implies #[trigger] array_items(t, f, o, init, p0, k0) == exprs_out(r, self.at(), self.answers().len()) by {
                            assert(extends(o, ap));
                            assert(expression(t, f, o, q, k) == expr_out(res, self.at(), self.answers().len()));
                            assert(array_items(t, f, o, acc, p, k) == exprs_out(r, self.at(), self.answers().len()));
                        }
                    }
                    return r;
                },
            };
            let ghost vv = expr_deep(v);
            let ghost q3 = self.at();
            let ghost a3 = self.answers();
            let ghost prev = items@;
            items.push(v);
            proof {
                lemma_exprs_push(prev, v);
            }
            if self.cur_is(Token::Comma) {
                self.advance();
            }
            proof {
                assert forall|o: Seq<Answer>| extends(o, self.answers()) implies #[trigger] array_items(t, f, o, init, p0, k0)
                    == array_items(t, f, o, exprs_deep(items@), self.at(), self.answers().len()) by {
                    assert(extends(o, ap));
                    assert(expression(t, f, o, q, k) == (Ok::<(ExprView, int), Seq<char>>((vv, q3)), a3.len()));
                    assert(array_items(t, f, o, acc, p, k) == array_items(t, f, o, acc.push(vv), self.at(), self.answers().len()));
                }
            }
        }
    }
}

} // verus!
