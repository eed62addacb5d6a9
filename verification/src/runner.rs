//! The decisions of the runner that loads scripts and their includes.
use vstd::prelude::*;
use crate::ast::{Expr, ExprView, copy_expr, expr_deep};
use crate::error_registry::{HankErrorRegistry, error_message, strings_view};
use crate::text::text_eq;
use crate::types::{HankError, HankErrorValue};

verus! {

/// Whether the resource `id` may be loaded while the resources `stack` are
/// being loaded: an error naming it when it is already among them, since it
/// would then include itself.
pub fn check_circular(stack: &Vec<String>, id: &str) -> (r: Result<(), HankErrorValue>)
    ensures
        r is Err <==> strings_view(stack@).contains(id@),
        r matches Err(e) ==> e.code == HankError::CircularDependency && e.message@ == error_message(
            HankError::CircularDependency,
            seq![id@],
            None,
            None,
            None,
        ),
{
    let ghost sv = strings_view(stack@);
    let mut i: usize = 0;
    while i < stack.len()
        invariant
            sv == strings_view(stack@),
            sv.len() == stack@.len(),
            i <= stack@.len(),
            forall|j: int| 0 <= j < i ==> sv[j] != id@,
        decreases stack.len() - i,
    {
        if text_eq(stack[i].as_str(), id) {
            assert(sv[i as int] == id@);
            let args = vec![id.to_owned()];
            assert(strings_view(args@) =~= seq![id@]);
            return Err(
                HankErrorRegistry::create(HankError::CircularDependency, args, None, None, None),
            );
        }
        i = i + 1;
    }
    Ok(())
}


/// What loading a resource starts with: the syntax tree cached for it, or
/// fetching and parsing its content.
pub enum LoadStep {
    Cached(Expr),
    Fetch,
}

/// The first decision of a load of the resource `id` while the resources
/// `stack` are being loaded, given the tree cached for it: a cached tree is
/// used as it is, whatever the stack holds; otherwise a resource already on
/// the stack is refused as circular, and any other is fetched.
pub fn load_step(stack: &Vec<String>, id: &str, cached_ast: Option<Expr>) -> (r: Result<
    LoadStep,
    HankErrorValue,
>)
    ensures
        cached_ast matches Some(t) ==> r == Ok::<LoadStep, HankErrorValue>(LoadStep::Cached(t)),
        cached_ast is None ==> (r is Err <==> strings_view(stack@).contains(id@)),
        cached_ast is None && !strings_view(stack@).contains(id@) ==> r matches Ok(LoadStep::Fetch),
        r matches Err(e) ==> e.code == HankError::CircularDependency && e.message@ == error_message(
            HankError::CircularDependency,
            seq![id@],
            None,
            None,
            None,
        ),
{
    match cached_ast {
        Some(t) => Ok(LoadStep::Cached(t)),
        None => match check_circular(stack, id) {
            Ok(()) => Ok(LoadStep::Fetch),
            Err(e) => Err(e),
        },
    }
}

/// The content of the resource `id` once it was asked to load: its load
/// error as it is, under the code for content that did not load; the error
/// naming it when it has no content; else its content.
pub fn after_fetch(load: Result<(), String>, content: Option<String>, id: &str) -> (r: Result<
    String,
    HankErrorValue,
>)
    ensures
        load matches Err(m) ==> (r matches Err(e) && e.code == HankError::ResourceContentNotLoaded
            && e.message == m),
        load is Ok && content is None ==> (r matches Err(e) && e.code == HankError::ResourceContentNotLoaded
            && e.message@ == error_message(HankError::ResourceContentNotLoaded, seq![id@], None, None, None)),
        load is Ok && content is Some ==> r == Ok::<String, HankErrorValue>(content->0),
{
    match load {
        Err(m) => Err(HankErrorValue { code: HankError::ResourceContentNotLoaded, message: m }),
        Ok(()) => match content {
            Some(c) => Ok(c),
            None => {
                let args = vec![id.to_owned()];
                assert(strings_view(args@) =~= seq![id@]);
                Err(HankErrorRegistry::create(HankError::ResourceContentNotLoaded, args, None, None, None))
            },
        },
    }
}


/// The syntax trees of the resources loaded so far, by resource id; a later
/// entry for an id stands over an earlier one.
pub open spec fn trees_map(s: Seq<(String, Expr)>) -> Map<Seq<char>, ExprView>
    decreases s.len(),
{
    if s.len() == 0 {
        Map::empty()
    } else {
        trees_map(s.drop_last()).insert(s.last().0@, expr_deep(s.last().1))
    }
}

/// What a load starts with, as a value: the cached tree, a fetch, or the
/// refusal of a circular include.
pub enum StepView {
    Cached(ExprView),
    Fetch,
    Circular,
}

/// The first step of a load of `id` with the cache `trees` while the
/// resources `stack` are being loaded.
pub open spec fn begin_spec(trees: Map<Seq<char>, ExprView>, stack: Seq<Seq<char>>, id: Seq<char>) -> StepView {
    if trees.contains_key(id) {
        StepView::Cached(trees[id])
    } else if stack.contains(id) {
        StepView::Circular
    } else {
        StepView::Fetch
    }
}

/// The step a load result stands for.
pub open spec fn step_view(r: Result<LoadStep, HankErrorValue>) -> StepView {
    match r {
        Ok(LoadStep::Cached(t)) => StepView::Cached(expr_deep(t)),
        Ok(LoadStep::Fetch) => StepView::Fetch,
        Err(_) => StepView::Circular,
    }
}

/// The stack once the resource on top of it is done.
pub open spec fn stack_done(stack: Seq<Seq<char>>) -> Seq<Seq<char>> {
    if stack.len() > 0 {
        stack.drop_last()
    } else {
        stack
    }
}

/// The syntax trees of the loaded resources, by resource id.
pub struct TreeCache {
    entries: Vec<(String, Expr)>,
}

impl View for TreeCache {
    type V = Map<Seq<char>, ExprView>;

    closed spec fn view(&self) -> Map<Seq<char>, ExprView> {
        trees_map(self.entries@)
    }
}

impl TreeCache {
    /// An empty cache.
    pub fn new() -> (r: TreeCache)
        ensures
            r@ == Map::<Seq<char>, ExprView>::empty(),
    {
        TreeCache { entries: Vec::new() }
    }

    /// A copy of the tree cached for `id`.
    pub fn tree(&self, id: &str) -> (r: Option<Expr>)
        ensures
            match r {
                Some(t) => self@.contains_key(id@) && expr_deep(t) == self@[id@],
                None => !self@.contains_key(id@),
            },
    {
        let mut j: usize = self.entries.len();
        assert(self.entries@.take(j as int) =~= self.entries@);
        while j > 0
            invariant
                j <= self.entries@.len(),
                trees_map(self.entries@).contains_key(id@) == trees_map(self.entries@.take(j as int)).contains_key(
                    id@,
                ),
                trees_map(self.entries@).contains_key(id@) ==> trees_map(self.entries@)[id@] == trees_map(
                    self.entries@.take(j as int),
                )[id@],
            decreases j,
        {
            let ghost pre = self.entries@.take(j as int);
            assert(pre.drop_last() =~= self.entries@.take(j - 1));
            assert(pre.last() == self.entries@[j - 1]);
            if text_eq(self.entries[j - 1].0.as_str(), id) {
                return Some(copy_expr(&self.entries[j - 1].1));
            }
            j = j - 1;
        }
        None
    }

    /// The first step of a load of `id` while the resources `stack` are
    /// being loaded: a cached tree is used as it is, whatever the stack
    /// holds; otherwise a resource already on the stack is refused as
    /// circular, and any other is fetched. Neither the cache nor the stack
    /// changes.
    pub fn begin(&self, stack: &Vec<String>, id: &str) -> (r: Result<LoadStep, HankErrorValue>)
        ensures
            step_view(r) == begin_spec(self@, strings_view(stack@), id@),
            r matches Err(e) ==> e.code == HankError::CircularDependency && e.message@ == error_message(
                HankError::CircularDependency,
                seq![id@],
                None,
                None,
                None,
            ),
    {
        load_step(stack, id, self.tree(id))
    }

    /// Stores the tree parsed for `id` and takes the resource on top of the
    /// stack off it.
    pub fn finish(&mut self, stack: &mut Vec<String>, id: &str, ast: &Expr)
        ensures
            final(self)@ == old(self)@.insert(id@, expr_deep(*ast)),
            strings_view(final(stack)@) == stack_done(strings_view(old(stack)@)),
    {
        let ghost before = self.entries@;
        self.entries.push((id.to_string(), copy_expr(ast)));
        assert(self.entries@.drop_last() =~= before);
        let ghost sv = strings_view(stack@);
        let _ = stack.pop();
        proof {
            if sv.len() > 0 {
                assert(strings_view(stack@) =~= sv.drop_last());
            }
        }
    }

    /// Drops the tree cached for `id`.
    pub fn forget(&mut self, id: &str)
        ensures
            final(self)@ == old(self)@.remove(id@),
    {
        let ghost old_map = self@;
        let mut kept: Vec<(String, Expr)> = Vec::new();
        let mut i: usize = 0;
        assert(trees_map(self.entries@.take(0)) =~= Map::<Seq<char>, ExprView>::empty());
        assert(trees_map(kept@) =~= Map::<Seq<char>, ExprView>::empty().remove(id@));
        while i < self.entries.len()
            invariant
                i <= self.entries@.len(),
                old_map == trees_map(self.entries@),
                trees_map(kept@) == trees_map(self.entries@.take(i as int)).remove(id@),
            decreases self.entries.len() - i,
        {
            let ghost pre = self.entries@.take(i + 1);
            assert(pre.drop_last() =~= self.entries@.take(i as int));
            assert(pre.last() == self.entries@[i as int]);
            if !text_eq(self.entries[i].0.as_str(), id) {
                let ghost k0 = kept@;
                kept.push((self.entries[i].0.clone(), copy_expr(&self.entries[i].1)));
                assert(kept@.drop_last() =~= k0);
                assert(trees_map(kept@) =~= trees_map(pre).remove(id@));
            } else {
                assert(trees_map(kept@) =~= trees_map(pre).remove(id@));
            }
            i = i + 1;
        }
        assert(self.entries@.take(i as int) =~= self.entries@);
        self.entries = kept;
    }
}

/// The content of the resource `id` once it was asked to load, as
/// [`after_fetch`] gives it; when there is content, `id` goes on top of
/// the stack of the resources being loaded.
pub fn enter(stack: &mut Vec<String>, load: Result<(), String>, content: Option<String>, id: &str) -> (r: Result<
    String,
    HankErrorValue,
>)
    ensures
        load matches Err(m) ==> (r matches Err(e) && e.code == HankError::ResourceContentNotLoaded
            && e.message == m),
        load is Ok && content is None ==> (r matches Err(e) && e.code == HankError::ResourceContentNotLoaded
            && e.message@ == error_message(HankError::ResourceContentNotLoaded, seq![id@], None, None, None)),
        load is Ok && content is Some ==> r == Ok::<String, HankErrorValue>(content->0),
        strings_view(final(stack)@) == if r is Ok {
            strings_view(old(stack)@).push(id@)
        } else {
            strings_view(old(stack)@)
        },
{
    let r = after_fetch(load, content, id);
    if r.is_ok() {
        let ghost sv = strings_view(stack@);
        stack.push(id.to_string());
        assert(strings_view(stack@) =~= sv.push(id@));
    }
    r
}

/// A load of a resource right after its tree was stored gives that tree,
/// whatever the stack then holds.
pub proof fn law_load_after_finish(trees: Map<Seq<char>, ExprView>, stack: Seq<Seq<char>>, id: Seq<char>, t: ExprView)
    ensures
        begin_spec(trees.insert(id, t), stack_done(stack), id) == StepView::Cached(t),
        begin_spec(trees.insert(id, t), stack, id) == StepView::Cached(t),
{
}

/// Storing or dropping the tree of one resource leaves the tree cached for
/// any other as it was.
pub proof fn law_cache_kept(trees: Map<Seq<char>, ExprView>, id: Seq<char>, other: Seq<char>, t: ExprView)
    requires
        id != other,
    ensures
        trees.insert(id, t).contains_key(other) == trees.contains_key(other),
        trees.remove(id).contains_key(other) == trees.contains_key(other),
        trees.contains_key(other) ==> trees.insert(id, t)[other] == trees[other] && trees.remove(id)[other]
            == trees[other],
{
}

/// After the tree of a resource is dropped, a load of it is never served
/// from the cache.
pub proof fn law_forget_refetches(trees: Map<Seq<char>, ExprView>, stack: Seq<Seq<char>>, id: Seq<char>)
    ensures
        !(begin_spec(trees.remove(id), stack, id) is Cached),
{
}

} // verus!
