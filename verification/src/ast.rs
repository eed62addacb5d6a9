//! The syntax tree of a Hank script.
use vstd::prelude::*;
use crate::types::{HankError, TokenData, TokenDataView};

verus! {

/// A value written in the source: nothing, a number (by its literal text) or a
/// string.
#[derive(Debug, Clone)]
pub enum Literal {
    Void,
    Number(String),
    String(String),
}

/// A task parameter: its name, whether it may be left out, and the default
/// value used when it is.
#[derive(Debug)]
pub struct Param {
    pub name: String,
    pub is_optional: bool,
    pub default_value: Option<Box<Expr>>,
}

/// A node of the syntax tree, with the position of the token it starts at.
#[derive(Debug)]
pub enum Expr {
    Block(Vec<Expr>, TokenData),
    Assign(String, Box<Expr>, TokenData),
    Literal(Literal, TokenData),
    Ident(String, bool, TokenData),
    Field(Box<Expr>, String, TokenData),
    FuncDef(Vec<Param>, Box<Expr>, TokenData),
    FuncCall(Box<Expr>, Vec<Expr>, TokenData),
    UnOp(String, Box<Expr>, TokenData),
    Object(Vec<(String, Expr)>, TokenData),
    Array(Vec<Expr>, TokenData),
    FlowControl {
        condition: Box<Expr>,
        success: Box<Expr>,
        fallback: Option<Box<Expr>>,
        rescue: Option<Box<Expr>>,
        catch_var: Option<String>,
        token: TokenData,
    },
    Error(HankError, Vec<Expr>, TokenData),
}

/// The mathematical content of a [`Literal`].
pub enum LiteralView {
    Void,
    Number(Seq<char>),
    String(Seq<char>),
}

/// The mathematical content of a [`Param`].
pub struct ParamView {
    pub name: Seq<char>,
    pub is_optional: bool,
    pub default_value: Option<Box<ExprView>>,
}

/// The mathematical content of an [`Expr`].
pub enum ExprView {
    Block(Seq<ExprView>, TokenDataView),
    Assign(Seq<char>, Box<ExprView>, TokenDataView),
    Literal(LiteralView, TokenDataView),
    Ident(Seq<char>, bool, TokenDataView),
    Field(Box<ExprView>, Seq<char>, TokenDataView),
    FuncDef(Seq<ParamView>, Box<ExprView>, TokenDataView),
    FuncCall(Box<ExprView>, Seq<ExprView>, TokenDataView),
    UnOp(Seq<char>, Box<ExprView>, TokenDataView),
    Object(Seq<(Seq<char>, ExprView)>, TokenDataView),
    Array(Seq<ExprView>, TokenDataView),
    FlowControl {
        condition: Box<ExprView>,
        success: Box<ExprView>,
        fallback: Option<Box<ExprView>>,
        rescue: Option<Box<ExprView>>,
        catch_var: Option<Seq<char>>,
        token: TokenDataView,
    },
    Error(HankError, Seq<ExprView>, TokenDataView),
}

impl View for Literal {
    type V = LiteralView;

    open spec fn view(&self) -> LiteralView {
        match self {
            Literal::Void => LiteralView::Void,
            Literal::Number(s) => LiteralView::Number(s@),
            Literal::String(s) => LiteralView::String(s@),
        }
    }
}

/// The content of an optional subtree.
pub open spec fn opt_deep(o: Option<Box<Expr>>) -> Option<Box<ExprView>>
    decreases o,
{
    match o {
        Some(b) => Some(Box::new(expr_deep(*b))),
        None => None,
    }
}

/// The content of a syntax tree.
pub open spec fn expr_deep(e: Expr) -> ExprView
    decreases e,
{
    match e {
        Expr::Block(v, td) => ExprView::Block(exprs_deep(v@), td@),
        Expr::Assign(n, b, td) => ExprView::Assign(n@, Box::new(expr_deep(*b)), td@),
        Expr::Literal(l, td) => ExprView::Literal(l@, td@),
        Expr::Ident(n, c, td) => ExprView::Ident(n@, c, td@),
        Expr::Field(b, n, td) => ExprView::Field(Box::new(expr_deep(*b)), n@, td@),
        Expr::FuncDef(ps, b, td) => ExprView::FuncDef(params_deep(ps@), Box::new(expr_deep(*b)), td@),
        Expr::FuncCall(b, args, td) => ExprView::FuncCall(Box::new(expr_deep(*b)), exprs_deep(args@), td@),
        Expr::UnOp(op, b, td) => ExprView::UnOp(op@, Box::new(expr_deep(*b)), td@),
        Expr::Object(fs, td) => ExprView::Object(fields_deep(fs@), td@),
        Expr::Array(v, td) => ExprView::Array(exprs_deep(v@), td@),
        Expr::FlowControl { condition, success, fallback, rescue, catch_var, token } => {
            ExprView::FlowControl {
                condition: Box::new(expr_deep(*condition)),
                success: Box::new(expr_deep(*success)),
                fallback: opt_deep(fallback),
                rescue: opt_deep(rescue),
                catch_var: match catch_var {
                    Some(s) => Some(s@),
                    None => None,
                },
                token: token@,
            }
        },
        Expr::Error(code, v, td) => ExprView::Error(code, exprs_deep(v@), td@),
    }
}

/// The contents of a list of syntax trees.
pub open spec fn exprs_deep(s: Seq<Expr>) -> Seq<ExprView>
    decreases s,
{
    if s.len() == 0 {
        Seq::empty()
    } else {
        exprs_deep(s.subrange(0, s.len() - 1)).push(expr_deep(s[s.len() - 1]))
    }
}

/// The content of a parameter.
pub open spec fn param_deep(p: Param) -> ParamView
    decreases p,
{
    ParamView { name: p.name@, is_optional: p.is_optional, default_value: opt_deep(p.default_value) }
}

/// The contents of a parameter list.
pub open spec fn params_deep(s: Seq<Param>) -> Seq<ParamView>
    decreases s,
{
    if s.len() == 0 {
        Seq::empty()
    } else {
        params_deep(s.subrange(0, s.len() - 1)).push(param_deep(s[s.len() - 1]))
    }
}

/// The contents of the fields of an object literal.
pub open spec fn fields_deep(s: Seq<(String, Expr)>) -> Seq<(Seq<char>, ExprView)>
    decreases s,
{
    if s.len() == 0 {
        Seq::empty()
    } else {
        fields_deep(s.subrange(0, s.len() - 1)).push(
            (s[s.len() - 1].0@, expr_deep(s[s.len() - 1].1)),
        )
    }
}

/// The position of the token that a node starts at.
pub open spec fn expr_token(e: ExprView) -> TokenDataView {
    match e {
        ExprView::Block(_, td) => td,
        ExprView::Assign(_, _, td) => td,
        ExprView::Literal(_, td) => td,
        ExprView::Ident(_, _, td) => td,
        ExprView::Field(_, _, td) => td,
        ExprView::FuncDef(_, _, td) => td,
        ExprView::FuncCall(_, _, td) => td,
        ExprView::UnOp(_, _, td) => td,
        ExprView::Object(_, td) => td,
        ExprView::Array(_, td) => td,
        ExprView::FlowControl { token, .. } => token,
        ExprView::Error(_, _, td) => td,
    }
}

impl Expr {
    /// The content of this tree.
    pub open spec fn deep(&self) -> ExprView {
        expr_deep(*self)
    }

    /// The position of the token this node starts at.
    pub fn token(&self) -> (r: TokenData)
        ensures
            r@ == expr_token(self.deep()),
    {
        match self {
            Expr::Block(_, td) => td.duplicate(),
            Expr::Assign(_, _, td) => td.duplicate(),
            Expr::Literal(_, td) => td.duplicate(),
            Expr::Ident(_, _, td) => td.duplicate(),
            Expr::Field(_, _, td) => td.duplicate(),
            Expr::FuncDef(_, _, td) => td.duplicate(),
            Expr::FuncCall(_, _, td) => td.duplicate(),
            Expr::UnOp(_, _, td) => td.duplicate(),
            Expr::Object(_, td) => td.duplicate(),
            Expr::Array(_, td) => td.duplicate(),
            Expr::FlowControl { token, .. } => token.duplicate(),
            Expr::Error(_, _, td) => td.duplicate(),
        }
    }
}

/// A copy of a literal.
pub fn copy_literal(l: &Literal) -> (r: Literal)
    ensures
        r@ == l@,
{
    match l {
        Literal::Void => Literal::Void,
        Literal::Number(n) => Literal::Number(n.clone()),
        Literal::String(s) => Literal::String(s.clone()),
    }
}

/// A copy of an optional subtree.
pub fn copy_opt(o: &Option<Box<Expr>>) -> (r: Option<Box<Expr>>)
    ensures
        opt_deep(r) == opt_deep(*o),
    decreases o,
{
    match o {
        Some(b) => {
            let c = copy_expr(b);
            proof {
                assert(opt_deep(Some(Box::new(c))) == Some(Box::new(expr_deep(c))));
            }
            Some(Box::new(c))
        },
        None => None,
    }
}

/// A copy of a list of subtrees.
pub fn copy_exprs(v: &Vec<Expr>) -> (r: Vec<Expr>)
    ensures
        exprs_deep(r@) == exprs_deep(v@),
    decreases v,
{
    let mut out: Vec<Expr> = Vec::new();
    let mut i: usize = 0;
    proof {
        assert(exprs_deep(Seq::<Expr>::empty()) =~= Seq::<ExprView>::empty());
        lemma_exprs_index(v@);
    }
    while i < v.len()
        invariant
            i <= v@.len(),
            out@.len() == i,
            exprs_deep(out@) == exprs_deep(v@).take(i as int),
            exprs_deep(v@).len() == v@.len(),
            forall|j: int| 0 <= j < v@.len() ==> #[trigger] exprs_deep(v@)[j] == expr_deep(v@[j]),
        decreases v.len() - i,
    {
        proof {
            assert(decreases_to!(v => v@[i as int]));
        }
        let c = copy_expr(&v[i]);
        let ghost prev = out@;
        out.push(c);
        proof {
            lemma_exprs_push(prev, c);
            assert(exprs_deep(v@).take(i + 1) =~= exprs_deep(v@).take(i as int).push(expr_deep(v@[i as int])));
        }
        i = i + 1;
    }
    assert(exprs_deep(v@).take(v@.len() as int) =~= exprs_deep(v@));
    out
}

/// A copy of a parameter list.
pub fn copy_params(ps: &Vec<Param>) -> (r: Vec<Param>)
    ensures
        params_deep(r@) == params_deep(ps@),
    decreases ps,
{
    let mut out: Vec<Param> = Vec::new();
    let mut i: usize = 0;
    assert(params_deep(Seq::<Param>::empty()) =~= Seq::<ParamView>::empty());
    assert(ps@.take(0) =~= Seq::<Param>::empty());
    while i < ps.len()
        invariant
            i <= ps@.len(),
            params_deep(out@) == params_deep(ps@.take(i as int)),
        decreases ps.len() - i,
    {
        let c = copy_param(&ps[i]);
        let ghost prev = out@;
        out.push(c);
        proof {
            lemma_params_push(prev, c);
            lemma_params_push(ps@.take(i as int), ps@[i as int]);
            assert(ps@.take(i + 1) =~= ps@.take(i as int).push(ps@[i as int]));
        }
        i = i + 1;
    }
    assert(ps@.take(ps@.len() as int) =~= ps@);
    out
}

/// A copy of the fields of an object literal.
pub fn copy_fields(fs: &Vec<(String, Expr)>) -> (r: Vec<(String, Expr)>)
    ensures
        fields_deep(r@) == fields_deep(fs@),
    decreases fs,
{
    let mut out: Vec<(String, Expr)> = Vec::new();
    let mut i: usize = 0;
    assert(fields_deep(Seq::<(String, Expr)>::empty()) =~= Seq::<(Seq<char>, ExprView)>::empty());
    assert(fs@.take(0) =~= Seq::<(String, Expr)>::empty());
    while i < fs.len()
        invariant
            i <= fs@.len(),
            fields_deep(out@) == fields_deep(fs@.take(i as int)),
        decreases fs.len() - i,
    {
        proof {
            assert(decreases_to!(fs@[i as int] => fs@[i as int].1));
        }
        let c = copy_expr(&fs[i].1);
        let k = fs[i].0.clone();
        let ghost prev = out@;
        out.push((k, c));
        proof {
            lemma_fields_push(prev, (k, c));
            lemma_fields_push(fs@.take(i as int), fs@[i as int]);
            assert(fs@.take(i + 1) =~= fs@.take(i as int).push(fs@[i as int]));
        }
        i = i + 1;
    }
    assert(fs@.take(fs@.len() as int) =~= fs@);
    out
}

/// A copy of a parameter.
pub fn copy_param(p: &Param) -> (r: Param)
    ensures
        param_deep(r) == param_deep(*p),
    decreases p,
{
    Param { name: p.name.clone(), is_optional: p.is_optional, default_value: copy_opt(&p.default_value) }
}

/// A copy of a syntax tree.
pub fn copy_expr(e: &Expr) -> (r: Expr)
    ensures
        expr_deep(r) == expr_deep(*e),
    decreases e,
{
    match e {
        Expr::Block(v, td) => Expr::Block(copy_exprs(v), td.duplicate()),
        Expr::Assign(n, b, td) => Expr::Assign(n.clone(), Box::new(copy_expr(b)), td.duplicate()),
        Expr::Literal(l, td) => Expr::Literal(copy_literal(l), td.duplicate()),
        Expr::Ident(n, c, td) => Expr::Ident(n.clone(), *c, td.duplicate()),
        Expr::Field(b, n, td) => Expr::Field(Box::new(copy_expr(b)), n.clone(), td.duplicate()),
        Expr::FuncDef(ps, b, td) => Expr::FuncDef(copy_params(ps), Box::new(copy_expr(b)), td.duplicate()),
        Expr::FuncCall(b, args, td) => Expr::FuncCall(Box::new(copy_expr(b)), copy_exprs(args), td.duplicate()),
        Expr::UnOp(op, b, td) => Expr::UnOp(op.clone(), Box::new(copy_expr(b)), td.duplicate()),
        Expr::Object(fs, td) => Expr::Object(copy_fields(fs), td.duplicate()),
        Expr::Array(v, td) => Expr::Array(copy_exprs(v), td.duplicate()),
        Expr::FlowControl { condition, success, fallback, rescue, catch_var, token } => {
            let cv = match catch_var {
                Some(s) => Some(s.clone()),
                None => None,
            };
            Expr::FlowControl {
                condition: Box::new(copy_expr(condition)),
                success: Box::new(copy_expr(success)),
                fallback: copy_opt(fallback),
                rescue: copy_opt(rescue),
                catch_var: cv,
                token: token.duplicate(),
            }
        },
        Expr::Error(code, v, td) => Expr::Error(*code, copy_exprs(v), td.duplicate()),
    }
}

proof fn lemma_exprs_deep_push(s: Seq<Expr>, e: Expr)
    ensures
        exprs_deep(s.push(e)) == exprs_deep(s).push(expr_deep(e)),
{
    assert(s.push(e).subrange(0, s.len() as int) =~= s);
}

/// The contents of a list grow by one node when the list does.
pub proof fn lemma_exprs_push(s: Seq<Expr>, e: Expr)
    ensures
        exprs_deep(s.push(e)) == exprs_deep(s).push(expr_deep(e)),
        exprs_deep(s).len() == s.len(),
    decreases s.len(),
{
    lemma_exprs_deep_push(s, e);
    lemma_exprs_len(s);
}

/// The contents of a list have the list's length.
pub proof fn lemma_exprs_len(s: Seq<Expr>)
    ensures
        exprs_deep(s).len() == s.len(),
    decreases s.len(),
{
    if s.len() > 0 {
        lemma_exprs_len(s.subrange(0, s.len() - 1));
    }
}

/// Each node of a list has its own content in the list's contents.
pub proof fn lemma_exprs_index(s: Seq<Expr>)
    ensures
        exprs_deep(s).len() == s.len(),
        forall|i: int| 0 <= i < s.len() ==> #[trigger] exprs_deep(s)[i] == expr_deep(s[i]),
    decreases s.len(),
{
    if s.len() > 0 {
        let init = s.subrange(0, s.len() - 1);
        lemma_exprs_index(init);
        assert forall|i: int| 0 <= i < s.len() implies #[trigger] exprs_deep(s)[i] == expr_deep(
            s[i],
        ) by {
            if i < s.len() - 1 {
                assert(init[i] == s[i]);
            }
        }
    }
}

/// Each parameter of a list has its own content in the list's contents.
pub proof fn lemma_params_index(s: Seq<Param>)
    ensures
        params_deep(s).len() == s.len(),
        forall|i: int| 0 <= i < s.len() ==> #[trigger] params_deep(s)[i] == param_deep(s[i]),
    decreases s.len(),
{
    if s.len() > 0 {
        let init = s.subrange(0, s.len() - 1);
        lemma_params_index(init);
        assert forall|i: int| 0 <= i < s.len() implies #[trigger] params_deep(s)[i] == param_deep(
            s[i],
        ) by {
            if i < s.len() - 1 {
                assert(init[i] == s[i]);
            }
        }
    }
}

/// The contents of a parameter list grow by one when the list does.
pub proof fn lemma_params_push(s: Seq<Param>, p: Param)
    ensures
        params_deep(s.push(p)) == params_deep(s).push(param_deep(p)),
{
    assert(s.push(p).subrange(0, s.len() as int) =~= s);
}

/// The contents of a field list grow by one when the list does.
pub proof fn lemma_fields_push(s: Seq<(String, Expr)>, f: (String, Expr))
    ensures
        fields_deep(s.push(f)) == fields_deep(s).push((f.0@, expr_deep(f.1))),
{
    assert(s.push(f).subrange(0, s.len() as int) =~= s);
}

/// The contents of a field list have the list's length and its keys.
pub proof fn lemma_fields_index(s: Seq<(String, Expr)>)
    ensures
        fields_deep(s).len() == s.len(),
        forall|i: int| 0 <= i < s.len() ==> #[trigger] fields_deep(s)[i] == (s[i].0@, expr_deep(s[i].1)),
    decreases s.len(),
{
    if s.len() > 0 {
        let init = s.subrange(0, s.len() - 1);
        lemma_fields_index(init);
        assert forall|i: int| 0 <= i < s.len() implies #[trigger] fields_deep(s)[i] == (s[i].0@,
            expr_deep(s[i].1)) by {
            if i < s.len() - 1 {
                assert(init[i] == s[i]);
            }
        }
    }
}

} // verus!
