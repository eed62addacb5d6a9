//! The interpreter's state: variable scopes, and the store of texts, arrays,
//! objects, tasks and errors that values refer to by index.
//!
//! A number is kept as the text of its decimal value, as a string is; the
//! host turns that text into a float where it computes with it.
use vstd::prelude::*;
use crate::ast::{Expr, ExprView, Param, ParamView, expr_deep, params_deep};
use crate::scope::{FramesView, Scopes, lookup_in, set_in};
use crate::types::HankError;

verus! {

/// A runtime value. Everything but nothing itself refers into the store.
#[derive(Debug, Clone, Copy, PartialEq, Eq, Structural)]
pub enum Val {
    Void,
    Number(usize),
    String(usize),
    Array(usize),
    Object(usize),
    Opaque(usize),
    Task(usize),
    Error(usize),
}

/// The outcome of evaluating a node.
#[derive(Debug, Clone, Copy, PartialEq, Eq, Structural)]
pub enum EvalResult {
    Val(Val),
    Return(Val),
    Break,
    Error(Val),
}

/// A callable task: one written in Hank, with the scope it was defined in,
/// or a native one the host runs.
pub enum Task {
    User { name: String, params: Vec<Param>, body: Expr, closure: usize },
    Native { name: String, id: usize },
}

/// The mathematical content of a [`Task`].
pub enum TaskView {
    User { name: Seq<char>, params: Seq<ParamView>, body: ExprView, closure: nat },
    Native { name: Seq<char>, id: nat },
}

/// The content of a task.
pub open spec fn task_view(t: Task) -> TaskView {
    match t {
        Task::User { name, params, body, closure } => TaskView::User {
            name: name@,
            params: params_deep(params@),
            body: expr_deep(body),
            closure: closure as nat,
        },
        Task::Native { name, id } => TaskView::Native { name: name@, id: id as nat },
    }
}

/// The state of the interpreter as plain values.
pub struct RtView {
    pub frames: FramesView<Val>,
    pub texts: Seq<Seq<char>>,
    pub arrays: Seq<Seq<Val>>,
    pub objects: Seq<Seq<(Seq<char>, Val)>>,
    pub tasks: Seq<TaskView>,
    pub errors: Seq<(HankError, Seq<Val>)>,
}

/// What the evaluator asks of the host: to run the native task `id` with
/// `args`, called from frame `scope`, with `depth` task calls still allowed;
/// or to render a value that is not a task in a message.
pub enum HostRequest {
    Call { id: nat, args: Seq<Val>, scope: nat, depth: nat },
    Describe { value: Val },
}

/// One request to the host: the request and the state it was made in, what
/// the host answered (an outcome for a call, a text for a rendering), the
/// state after it, and how many requests completed within it.
pub struct HostEntry {
    pub request: HostRequest,
    pub before: RtView,
    pub outcome: EvalResult,
    pub text: Seq<char>,
    pub after: RtView,
    pub nested: nat,
}

pub open spec fn texts_view(v: Seq<String>) -> Seq<Seq<char>> {
    v.map_values(|s: String| s@)
}

pub open spec fn arrays_view(v: Seq<Vec<Val>>) -> Seq<Seq<Val>> {
    v.map_values(|a: Vec<Val>| a@)
}

pub open spec fn fields_view(v: Seq<(String, Val)>) -> Seq<(Seq<char>, Val)> {
    v.map_values(|p: (String, Val)| (p.0@, p.1))
}

pub open spec fn objects_view(v: Seq<Vec<(String, Val)>>) -> Seq<Seq<(Seq<char>, Val)>> {
    v.map_values(|o: Vec<(String, Val)>| fields_view(o@))
}

pub open spec fn tasks_view(v: Seq<Task>) -> Seq<TaskView> {
    v.map_values(|t: Task| task_view(t))
}

pub open spec fn errors_view(v: Seq<(HankError, Vec<Val>)>) -> Seq<(HankError, Seq<Val>)> {
    v.map_values(|e: (HankError, Vec<Val>)| (e.0, e.1@))
}

/// The value `name` has seen from frame `sc`; nothing when it has none.
pub open spec fn var_value(st: RtView, sc: nat, name: Seq<char>) -> Val {
    match lookup_in(st.frames, sc as int, name) {
        Some(v) => v,
        None => Val::Void,
    }
}

/// The state with `name` set to `v` in frame `sc`.
pub open spec fn with_var(st: RtView, sc: nat, name: Seq<char>, v: Val) -> RtView {
    if sc < st.frames.len() {
        RtView { frames: set_in(st.frames, sc as int, name, v), ..st }
    } else {
        st
    }
}

/// The state with a new empty frame that falls back to `parent` when it
/// exists.
pub open spec fn with_frame(st: RtView, parent: nat) -> RtView {
    RtView {
        frames: st.frames.push(
            (
                Map::empty(),
                if parent < st.frames.len() {
                    Some(parent)
                } else {
                    None
                },
            ),
        ),
        ..st
    }
}

pub open spec fn with_text(st: RtView, s: Seq<char>) -> RtView {
    RtView { texts: st.texts.push(s), ..st }
}

pub open spec fn with_array(st: RtView, a: Seq<Val>) -> RtView {
    RtView { arrays: st.arrays.push(a), ..st }
}

pub open spec fn with_object(st: RtView, o: Seq<(Seq<char>, Val)>) -> RtView {
    RtView { objects: st.objects.push(o), ..st }
}

pub open spec fn with_task(st: RtView, t: TaskView) -> RtView {
    RtView { tasks: st.tasks.push(t), ..st }
}

pub open spec fn with_error(st: RtView, code: HankError, args: Seq<Val>) -> RtView {
    RtView { errors: st.errors.push((code, args)), ..st }
}

/// The text stored at `h`; empty when there is none.
pub open spec fn text_at(st: RtView, h: nat) -> Seq<char> {
    if h < st.texts.len() {
        st.texts[h as int]
    } else {
        Seq::empty()
    }
}

/// The value of the first field named `name`.
pub open spec fn field_value(fs: Seq<(Seq<char>, Val)>, name: Seq<char>) -> Option<Val>
    decreases fs.len(),
{
    if fs.len() == 0 {
        None
    } else if fs[0].0 == name {
        Some(fs[0].1)
    } else {
        field_value(fs.drop_first(), name)
    }
}

/// The value of the field `name` of the object at `h`; nothing when there is
/// no such object or field.
pub open spec fn object_field(st: RtView, h: nat, name: Seq<char>) -> Val {
    if h < st.objects.len() {
        match field_value(st.objects[h as int], name) {
            Some(v) => v,
            None => Val::Void,
        }
    } else {
        Val::Void
    }
}

/// The fields `fs` with `key` set to `v`: in place when the key is there,
/// appended otherwise.
pub open spec fn put_field(fs: Seq<(Seq<char>, Val)>, key: Seq<char>, v: Val) -> Seq<
    (Seq<char>, Val),
>
    decreases fs.len(),
{
    if fs.len() == 0 {
        seq![(key, v)]
    } else if fs[0].0 == key {
        fs.update(0, (key, v))
    } else {
        seq![fs[0]] + put_field(fs.drop_first(), key, v)
    }
}

/// Whether the answers `o` start with the answers `r`.
pub open spec fn log_extends(o: Seq<HostEntry>, r: Seq<HostEntry>) -> bool {
    r.len() <= o.len() && forall|i: int| 0 <= i < r.len() ==> o[i] == #[trigger] r[i]
}

/// The answers recorded after position `k`: those of the native calls that
/// completed within the call at `k`.
pub open spec fn nested_after(log: Seq<HostEntry>, k: nat) -> Seq<HostEntry> {
    if log.len() > k + 1 {
        log.skip((k + 1) as int)
    } else {
        Seq::empty()
    }
}

/// The host's interface: it runs native tasks, with access to the runtime.
pub trait Host {
    /// Runs the native task `id` with `args`, called from frame `scope`; the
    /// calls it makes back into the runtime may nest `depth` deep.
    fn call_native(&mut self, rt: &mut Runtime, id: usize, args: Vec<Val>, scope: usize, depth: usize) -> EvalResult;

    /// The text a value that is not a task is shown with when it is called.
    fn describe(&mut self, rt: &Runtime, value: Val) -> String;
}

/// The state of the interpreter and the store.
pub struct Runtime {
    scopes: Scopes<Val>,
    texts: Vec<String>,
    arrays: Vec<Vec<Val>>,
    objects: Vec<Vec<(String, Val)>>,
    tasks: Vec<Task>,
    errors: Vec<(HankError, Vec<Val>)>,
    base: usize,
    log: Ghost<Seq<HostEntry>>,
}

impl View for Runtime {
    type V = RtView;

    closed spec fn view(&self) -> RtView {
        RtView {
            frames: self.scopes.frames(),
            texts: texts_view(self.texts@),
            arrays: arrays_view(self.arrays@),
            objects: objects_view(self.objects@),
            tasks: tasks_view(self.tasks@),
            errors: errors_view(self.errors@),
        }
    }
}

impl Runtime {
    /// The frame of the registered modules, which every lookup falls back to.
    pub closed spec fn base(&self) -> nat {
        self.base as nat
    }

    /// The host's answers to the native calls so far.
    pub closed spec fn log(&self) -> Seq<HostEntry> {
        self.log@
    }

    /// A runtime with one frame, the core frame, and an empty store.
    pub fn new() -> (r: Self)
        ensures
            r@.frames == seq![(Map::<Seq<char>, Val>::empty(), None::<nat>)],
            r@.texts == Seq::<Seq<char>>::empty(),
            r@.arrays == Seq::<Seq<Val>>::empty(),
            r@.objects == Seq::<Seq<(Seq<char>, Val)>>::empty(),
            r@.tasks == Seq::<TaskView>::empty(),
            r@.errors == Seq::<(HankError, Seq<Val>)>::empty(),
            r.base() == 0,
            r.log() == Seq::<HostEntry>::empty(),
    {
        let mut scopes = Scopes::new();
        let base = scopes.open_frame(None);
        let r = Runtime {
            scopes,
            texts: Vec::new(),
            arrays: Vec::new(),
            objects: Vec::new(),
            tasks: Vec::new(),
            errors: Vec::new(),
            base,
            log: Ghost(Seq::empty()),
        };
        assert(r@.frames =~= seq![(Map::<Seq<char>, Val>::empty(), None::<nat>)]);
        assert(r@.texts =~= Seq::<Seq<char>>::empty());
        assert(r@.arrays =~= Seq::<Seq<Val>>::empty());
        assert(r@.objects =~= Seq::<Seq<(Seq<char>, Val)>>::empty());
        assert(r@.tasks =~= Seq::<TaskView>::empty());
        assert(r@.errors =~= Seq::<(HankError, Seq<Val>)>::empty());
        r
    }

    /// The core frame.
    pub fn core_frame(&self) -> (r: usize)
        ensures
            r == self.base(),
    {
        self.base
    }

    /// The number of frames.
    pub fn frame_count(&self) -> (r: usize)
        ensures
            r == self@.frames.len(),
    {
        self.scopes.frame_count()
    }

    /// Opens an empty frame that falls back to `parent` when it exists.
    pub fn open_frame(&mut self, parent: usize) -> (r: usize)
        ensures
            final(self)@ == with_frame(old(self)@, parent as nat),
            r == old(self)@.frames.len(),
            final(self).base() == old(self).base(),
            final(self).log() == old(self).log(),
    {
        let p = if parent < self.scopes.frame_count() {
            Some(parent)
        } else {
            None
        };
        let r = self.scopes.open_frame(p);
        proof {
            assert(self@ =~= with_frame(old(self)@, parent as nat));
        }
        r
    }

    /// The value `name` has seen from frame `sc`; nothing when it has none.
    pub fn get_var(&self, sc: usize, name: &str) -> (r: Val)
        ensures
            r == var_value(self@, sc as nat, name@),
    {
        match self.scopes.get(sc, name) {
            Some(v) => *v,
            None => Val::Void,
        }
    }

    /// Whether `name` has a value seen from frame `sc`.
    pub fn has_var(&self, sc: usize, name: &str) -> (r: bool)
        ensures
            r == lookup_in(self@.frames, sc as int, name@) is Some,
    {
        self.scopes.has(sc, name)
    }

    /// Sets `name` to `v` in frame `sc`, when that frame exists.
    pub fn set_var(&mut self, sc: usize, name: String, v: Val)
        ensures
            final(self)@ == with_var(old(self)@, sc as nat, name@, v),
            final(self).base() == old(self).base(),
            final(self).log() == old(self).log(),
    {
        if sc < self.scopes.frame_count() {
            self.scopes.set(sc, name, v);
            proof {
                assert(self@ =~= with_var(old(self)@, sc as nat, name@, v));
            }
        }
    }

    /// Stores a text; gives its index.
    pub fn alloc_text(&mut self, s: String) -> (r: usize)
        ensures
            final(self)@ == with_text(old(self)@, s@),
            r == old(self)@.texts.len(),
            final(self).base() == old(self).base(),
            final(self).log() == old(self).log(),
    {
        let r = self.texts.len();
        let ghost sv = s@;
        self.texts.push(s);
        proof {
            assert(texts_view(self.texts@) =~= texts_view(old(self).texts@).push(sv));
            assert(self@ =~= with_text(old(self)@, sv));
        }
        r
    }

    /// The text at `h`, if there is one.
    pub fn text(&self, h: usize) -> (r: Option<&str>)
        ensures
            match r {
                Some(s) => h < self@.texts.len() && s@ == self@.texts[h as int],
                None => h >= self@.texts.len(),
            },
    {
        if h < self.texts.len() {
            Some(self.texts[h].as_str())
        } else {
            None
        }
    }

    /// Stores an array; gives its index.
    pub fn alloc_array(&mut self, items: Vec<Val>) -> (r: usize)
        ensures
            final(self)@ == with_array(old(self)@, items@),
            r == old(self)@.arrays.len(),
            final(self).base() == old(self).base(),
            final(self).log() == old(self).log(),
    {
        let r = self.arrays.len();
        let ghost iv = items@;
        self.arrays.push(items);
        proof {
            assert(arrays_view(self.arrays@) =~= arrays_view(old(self).arrays@).push(iv));
            assert(self@ =~= with_array(old(self)@, iv));
        }
        r
    }

    /// The items of the array at `h`, if there is one.
    pub fn array(&self, h: usize) -> (r: Option<&Vec<Val>>)
        ensures
            match r {
                Some(a) => h < self@.arrays.len() && a@ == self@.arrays[h as int],
                None => h >= self@.arrays.len(),
            },
    {
        if h < self.arrays.len() {
            Some(&self.arrays[h])
        } else {
            None
        }
    }

    /// Replaces the items of the array at `h`, when there is one.
    pub fn set_array(&mut self, h: usize, items: Vec<Val>)
        ensures
            final(self)@ == (if h < old(self)@.arrays.len() {
                RtView { arrays: old(self)@.arrays.update(h as int, items@), ..old(self)@ }
            } else {
                old(self)@
            }),
            final(self).base() == old(self).base(),
            final(self).log() == old(self).log(),
    {
        if h < self.arrays.len() {
            let ghost iv = items@;
            self.arrays.set(h, items);
            proof {
                assert(arrays_view(self.arrays@) =~= arrays_view(old(self).arrays@).update(h as int, iv));
                assert(self@ =~= RtView { arrays: old(self)@.arrays.update(h as int, iv), ..old(self)@ });
            }
        }
    }

    /// Stores an object; gives its index.
    pub fn alloc_object(&mut self, fields: Vec<(String, Val)>) -> (r: usize)
        ensures
            final(self)@ == with_object(old(self)@, fields_view(fields@)),
            r == old(self)@.objects.len(),
            final(self).base() == old(self).base(),
            final(self).log() == old(self).log(),
    {
        let r = self.objects.len();
        let ghost fv = fields_view(fields@);
        self.objects.push(fields);
        proof {
            assert(objects_view(self.objects@) =~= objects_view(old(self).objects@).push(fv));
            assert(self@ =~= with_object(old(self)@, fv));
        }
        r
    }

    /// The fields of the object at `h`, if there is one.
    pub fn object(&self, h: usize) -> (r: Option<&Vec<(String, Val)>>)
        ensures
            match r {
                Some(o) => h < self@.objects.len() && fields_view(o@) == self@.objects[h as int],
                None => h >= self@.objects.len(),
            },
    {
        if h < self.objects.len() {
            Some(&self.objects[h])
        } else {
            None
        }
    }

    /// Stores a task; gives its index.
    pub fn alloc_task(&mut self, t: Task) -> (r: usize)
        ensures
            final(self)@ == with_task(old(self)@, task_view(t)),
            r == old(self)@.tasks.len(),
            final(self).base() == old(self).base(),
            final(self).log() == old(self).log(),
    {
        let r = self.tasks.len();
        let ghost tv = task_view(t);
        self.tasks.push(t);
        proof {
            assert(tasks_view(self.tasks@) =~= tasks_view(old(self).tasks@).push(tv));
            assert(self@ =~= with_task(old(self)@, tv));
        }
        r
    }

    /// The task at `h`, if there is one.
    pub fn task(&self, h: usize) -> (r: Option<&Task>)
        ensures
            match r {
                Some(t) => h < self@.tasks.len() && task_view(*t) == self@.tasks[h as int],
                None => h >= self@.tasks.len(),
            },
    {
        if h < self.tasks.len() {
            Some(&self.tasks[h])
        } else {
            None
        }
    }

    /// Stores an error; gives its index.
    pub fn alloc_error(&mut self, code: HankError, args: Vec<Val>) -> (r: usize)
        ensures
            final(self)@ == with_error(old(self)@, code, args@),
            r == old(self)@.errors.len(),
            final(self).base() == old(self).base(),
            final(self).log() == old(self).log(),
    {
        let r = self.errors.len();
        let ghost av = args@;
        self.errors.push((code, args));
        proof {
            assert(errors_view(self.errors@) =~= errors_view(old(self).errors@).push((code, av)));
            assert(self@ =~= with_error(old(self)@, code, av));
        }
        r
    }

    /// The error at `h`, if there is one.
    pub fn error(&self, h: usize) -> (r: Option<&(HankError, Vec<Val>)>)
        ensures
            match r {
                Some(e) => h < self@.errors.len() && (e.0, e.1@) == self@.errors[h as int],
                None => h >= self@.errors.len(),
            },
    {
        if h < self.errors.len() {
            Some(&self.errors[h])
        } else {
            None
        }
    }

    /// Makes room in the log for the answer of the native call `id` with
    /// `args` from frame `scope` and `depth` calls allowed, which starts now.
    pub(crate) fn start_native(&mut self, id: usize, args: Ghost<Seq<Val>>, scope: usize, depth: usize)
        ensures
            final(self)@ == old(self)@,
            final(self).base() == old(self).base(),
            final(self).log() == old(self).log().push(
                HostEntry {
                    request: HostRequest::Call { id: id as nat, args: args@, scope: scope as nat, depth: depth as nat },
                    before: old(self)@,
                    outcome: EvalResult::Break,
                    text: Seq::empty(),
                    after: old(self)@,
                    nested: 0,
                },
            ),
    {
        self.log = Ghost(
            self.log@.push(
                HostEntry {
                    request: HostRequest::Call { id: id as nat, args: args@, scope: scope as nat, depth: depth as nat },
                    before: self@,
                    outcome: EvalResult::Break,
                    text: Seq::empty(),
                    after: self@,
                    nested: 0,
                },
            ),
        );
    }

    /// Records the answer `r` to the native call `call` that started when the
    /// log was `before`, with the state as it is now, after the answers of
    /// the requests that completed within it.
    pub(crate) fn record_native(&mut self, before: Ghost<Seq<HostEntry>>, call: Ghost<HostEntry>, r: EvalResult)
        ensures
            final(self)@ == old(self)@,
            final(self).base() == old(self).base(),
            final(self).log() == before@.push(
                HostEntry {
                    outcome: r,
                    after: old(self)@,
                    nested: nested_after(old(self).log(), before@.len()).len(),
                    ..call@
                },
            ) + nested_after(old(self).log(), before@.len()),
    {
        let ghost nested = nested_after(self.log@, before@.len());
        self.log = Ghost(
            before@.push(HostEntry { outcome: r, after: self@, nested: nested.len(), ..call@ }) + nested,
        );
    }

    /// Records that the host rendered `value` as `text`.
    pub(crate) fn record_describe(&mut self, value: Val, text: Ghost<Seq<char>>)
        ensures
            final(self)@ == old(self)@,
            final(self).base() == old(self).base(),
            final(self).log() == old(self).log().push(
                HostEntry {
                    request: HostRequest::Describe { value },
                    before: old(self)@,
                    outcome: EvalResult::Break,
                    text: text@,
                    after: old(self)@,
                    nested: 0,
                },
            ),
    {
        self.log = Ghost(
            self.log@.push(
                HostEntry {
                    request: HostRequest::Describe { value },
                    before: self@,
                    outcome: EvalResult::Break,
                    text: text@,
                    after: self@,
                    nested: 0,
                },
            ),
        );
    }
}

} // verus!
