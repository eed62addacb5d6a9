//! The tasks of the standard library that need no arithmetic on numbers:
//! `logic.and` and `logic.or`, the array and object tasks, the structural
//! part of value equality and the choice `regex.match` makes.
use vstd::prelude::*;
use vstd::utf8::encode_utf8;
use crate::eval::value_kind;
use crate::eval_spec::{count_value, kind_of};
use crate::runtime::{RtView, Runtime, Val, fields_view, object_field, text_at, with_array, with_error};
use crate::types::{HankError, ValueType, value_type_label};
use crate::stdlib::{HankRegex, is_match, regex_matches};
use crate::text::{contains_text, text_contains, text_eq};

verus! {

/// Whether some value of `s` is nothing.
pub open spec fn has_void(s: Seq<Val>) -> bool {
    exists|i: int| 0 <= i < s.len() && s[i] is Void
}

/// `logic.and`: nothing when there are no values or one of them is nothing,
/// else the last one.
pub open spec fn and_value(s: Seq<Val>) -> Val {
    if s.len() == 0 || has_void(s) {
        Val::Void
    } else {
        s.last()
    }
}

/// `logic.or`: the first value that is not nothing, else nothing.
pub open spec fn first_non_void(s: Seq<Val>) -> Val
    decreases s.len(),
{
    if s.len() == 0 {
        Val::Void
    } else if !(s[0] is Void) {
        s[0]
    } else {
        first_non_void(s.drop_first())
    }
}

/// `logic.or` gives the first argument that is not nothing: when the
/// arguments before index `i` are all nothing and the one at `i` is not,
/// the result is the one at `i`, however many arguments follow.
pub proof fn law_or_gives_first_present(s: Seq<Val>, i: int)
    requires
        0 <= i < s.len(),
        forall|j: int| 0 <= j < i ==> s[j] is Void,
        !(s[i] is Void),
    ensures
        first_non_void(s) == s[i],
    decreases i,
{
    if i > 0 {
        assert forall|j: int| 0 <= j < i - 1 implies s.drop_first()[j] is Void by {
            assert(s.drop_first()[j] == s[j + 1]);
        }
        assert(s[0] is Void);
        law_or_gives_first_present(s.drop_first(), i - 1);
    }
}

/// `logic.or` gives nothing exactly when every argument is nothing.
pub proof fn law_or_void_when_all_void(s: Seq<Val>)
    ensures
        (first_non_void(s) is Void) == (forall|j: int| 0 <= j < s.len() ==> s[j] is Void),
    decreases s.len(),
{
    if s.len() > 0 {
        law_or_void_when_all_void(s.drop_first());
        if !(s[0] is Void) {
        } else {
            assert forall|j: int| 0 <= j < s.len() && (forall|m: int| 0 <= m < s.drop_first().len() ==> s.drop_first()[m] is Void) implies s[j] is Void by {
                if j > 0 {
                    assert(s[j] == s.drop_first()[j - 1]);
                }
            }
            if forall|j: int| 0 <= j < s.len() ==> s[j] is Void {
                assert forall|m: int| 0 <= m < s.drop_first().len() implies s.drop_first()[m] is Void by {
                    assert(s.drop_first()[m] == s[m + 1]);
                }
            }
        }
    }
}

/// `logic.and` gives its last argument when no argument is nothing, and
/// nothing when there is none or one of them is nothing.
pub proof fn law_and_gives_last(s: Seq<Val>)
    ensures
        s.len() > 0 && (forall|j: int| 0 <= j < s.len() ==> !(#[trigger] s[j] is Void)) ==> and_value(s)
            == s[s.len() - 1],
        s.len() == 0 ==> and_value(s) is Void,
        forall|j: int| 0 <= j < s.len() && #[trigger] s[j] is Void ==> and_value(s) is Void,
{
}

/// `logic.and` on its arguments.
pub fn logic_and(args: &Vec<Val>) -> (r: Val)
    ensures
        r == and_value(args@),
{
    if args.len() == 0 {
        return Val::Void;
    }
    let mut i: usize = 0;
    while i < args.len()
        invariant
            0 < args@.len(),
            i <= args@.len(),
            forall|j: int| 0 <= j < i ==> !(args@[j] is Void),
        decreases args.len() - i,
    {
        if let Val::Void = args[i] {
            assert(has_void(args@));
            return Val::Void;
        }
        i = i + 1;
    }
    args[args.len() - 1]
}

/// `logic.or` on its arguments.
pub fn logic_or(args: &Vec<Val>) -> (r: Val)
    ensures
        r == first_non_void(args@),
{
    let mut i: usize = 0;
    assert(args@.skip(0) =~= args@);
    while i < args.len()
        invariant
            i <= args@.len(),
            first_non_void(args@) == first_non_void(args@.skip(i as int)),
        decreases args.len() - i,
    {
        assert(args@.skip(i as int).drop_first() =~= args@.skip(i + 1));
        if let Val::Void = args[i] {
            i = i + 1;
        } else {
            return args[i];
        }
    }
    assert(args@.skip(i as int).len() == 0);
    Val::Void
}

/// The items of the array at `h`; none when there is no such array.
pub open spec fn array_at(st: RtView, h: nat) -> Seq<Val> {
    if h < st.arrays.len() {
        st.arrays[h as int]
    } else {
        Seq::empty()
    }
}

/// The fields of the object at `h`; none when there is no such object.
pub open spec fn object_at(st: RtView, h: nat) -> Seq<(Seq<char>, Val)> {
    if h < st.objects.len() {
        st.objects[h as int]
    } else {
        Seq::empty()
    }
}

/// `p` before the pairs of `r`, when there are any.
pub open spec fn prepend(p: Seq<(usize, usize)>, r: Option<Seq<(usize, usize)>>) -> Option<
    Seq<(usize, usize)>,
> {
    match r {
        Some(q) => Some(p + q),
        None => None,
    }
}

/// Structural equality of `a` and `b`, looking `d` levels deep: `None` when
/// they differ in anything but the numbers they hold, else the pairs of
/// numbers, in order, that must be equal for the values to be. Nothing
/// equals nothing; strings are equal by their text; arrays by their items in
/// order; objects when they have as many fields and each field of either
/// is in the other with an equal value, the pairs of the first's fields
/// before those of the second's; an opaque value only to itself; a task or
/// an error to nothing.
pub open spec fn struct_eq(st: RtView, a: Val, b: Val, d: nat) -> Option<Seq<(usize, usize)>>
    decreases d, 1int, 0int,
{
    if d == 0 {
        None
    } else {
        match (a, b) {
            (Val::Void, Val::Void) => Some(Seq::empty()),
            (Val::Number(x), Val::Number(y)) => Some(seq![(x, y)]),
            (Val::String(x), Val::String(y)) => if text_at(st, x as nat) == text_at(st, y as nat) {
                Some(Seq::empty())
            } else {
                None
            },
            (Val::Array(x), Val::Array(y)) => if array_at(st, x as nat).len() == array_at(
                st,
                y as nat,
            ).len() {
                items_eq(st, array_at(st, x as nat), array_at(st, y as nat), 0, (d - 1) as nat)
            } else {
                None
            },
            (Val::Object(x), Val::Object(y)) => {
                let xs = object_at(st, x as nat);
                let ys = object_at(st, y as nat);
                if xs.len() == ys.len() {
                    match (fields_eq(st, xs, ys, 0, (d - 1) as nat), fields_eq(st, ys, xs, 0, (d - 1) as nat)) {
                        (Some(p), Some(q)) => Some(p + q),
                        _ => None,
                    }
                } else {
                    None
                }
            },
            (Val::Opaque(x), Val::Opaque(y)) => if x == y {
                Some(Seq::empty())
            } else {
                None
            },
            _ => None,
        }
    }
}

/// Two strings are equal exactly when their texts are the same sequence of
/// characters; no number has to be compared for it.
pub proof fn law_strings_equal_by_text(st: RtView, x: usize, y: usize, d: nat)
    requires
        d > 0,
    ensures
        (struct_eq(st, Val::String(x), Val::String(y), d) is Some) == (text_at(st, x as nat) == text_at(
            st,
            y as nat,
        )),
        struct_eq(st, Val::String(x), Val::String(y), d) is Some ==> struct_eq(
            st,
            Val::String(x),
            Val::String(y),
            d,
        )->0.len() == 0,
{
}

/// The items from `i` on compared in turn.
pub open spec fn items_eq(st: RtView, xs: Seq<Val>, ys: Seq<Val>, i: int, d: nat) -> Option<
    Seq<(usize, usize)>,
>
    decreases d, 2int, xs.len() - i,
{
    if i < 0 || i >= xs.len() || i >= ys.len() {
        Some(Seq::empty())
    } else {
        match struct_eq(st, xs[i], ys[i], d) {
            Some(p) => prepend(p, items_eq(st, xs, ys, i + 1, d)),
            None => None,
        }
    }
}

/// The value of the first field of `ys` named `key`.
pub open spec fn field_in(ys: Seq<(Seq<char>, Val)>, key: Seq<char>) -> Option<Val> {
    crate::runtime::field_value(ys, key)
}

/// The fields of `xs` from `i` on, each looked up in `ys` and compared.
pub open spec fn fields_eq(
    st: RtView,
    xs: Seq<(Seq<char>, Val)>,
    ys: Seq<(Seq<char>, Val)>,
    i: int,
    d: nat,
) -> Option<Seq<(usize, usize)>>
    decreases d, 2int, xs.len() - i,
{
    if i < 0 || i >= xs.len() {
        Some(Seq::empty())
    } else {
        match field_in(ys, xs[i].0) {
            Some(w) => match struct_eq(st, xs[i].1, w, d) {
                Some(p) => prepend(p, fields_eq(st, xs, ys, i + 1, d)),
                None => None,
            },
            None => None,
        }
    }
}

proof fn lemma_prepend_assoc(a: Seq<(usize, usize)>, b: Seq<(usize, usize)>, r: Option<Seq<(usize, usize)>>)
    ensures
        prepend(a, prepend(b, r)) == prepend(a + b, r),
{
    if r is Some {
        assert(a + (b + r->0) =~= (a + b) + r->0);
    }
}

impl Runtime {
    /// Compares `a` and `b` structurally, `d` levels deep: the pairs of
    /// numbers that must be equal for them to be, or `None` when they differ
    /// otherwise.
    pub fn struct_equal(&self, a: Val, b: Val, d: usize) -> (r: Option<Vec<(usize, usize)>>)
        ensures
            match r {
                Some(v) => struct_eq(self@, a, b, d as nat) == Some(v@),
                None => struct_eq(self@, a, b, d as nat) is None,
            },
        decreases d, 1int,
    {
        if d == 0 {
            return None;
        }
        match (a, b) {
            (Val::Void, Val::Void) => Some(Vec::new()),
            (Val::Number(x), Val::Number(y)) => {
                let v = vec![(x, y)];
                assert(v@ =~= seq![(x, y)]);
                Some(v)
            },
            (Val::String(x), Val::String(y)) => {
                let same = match (self.text(x), self.text(y)) {
                    (Some(s), Some(t)) => text_eq(s, t),
                    (Some(s), None) => s.is_empty(),
                    (None, Some(t)) => t.is_empty(),
                    (None, None) => true,
                };
                proof {
                    if x < self@.texts.len() && y >= self@.texts.len() && same {
                        assert(self@.texts[x as int] =~= Seq::<char>::empty());
                    }
                    if y < self@.texts.len() && x >= self@.texts.len() && same {
                        assert(self@.texts[y as int] =~= Seq::<char>::empty());
                    }
                }
                if same {
                    Some(Vec::new())
                } else {
                    None
                }
            },
            (Val::Array(x), Val::Array(y)) => {
                let xs = match self.array(x) {
                    Some(v) => v.clone(),
                    None => Vec::new(),
                };
                let ys = match self.array(y) {
                    Some(v) => v.clone(),
                    None => Vec::new(),
                };
                assert(xs@ =~= array_at(self@, x as nat));
                assert(ys@ =~= array_at(self@, y as nat));
                if xs.len() != ys.len() {
                    return None;
                }
                let ghost st = self@;
                let ghost d1 = (d - 1) as nat;
                let mut acc: Vec<(usize, usize)> = Vec::new();
                let mut i: usize = 0;
                assert(struct_eq(st, a, b, d as nat) == items_eq(st, xs@, ys@, 0, d1));
                assert(acc@ + items_eq(st, xs@, ys@, 0, d1)->0 =~= items_eq(st, xs@, ys@, 0, d1)->0);
                while i < xs.len()
                    invariant
                        st == self@,
                        d1 == d - 1,
                        d > 0,
                        struct_eq(st, a, b, d as nat) == items_eq(st, xs@, ys@, 0, d1),
                        xs@.len() == ys@.len(),
                        i <= xs@.len(),
                        items_eq(st, xs@, ys@, 0, d1) == prepend(acc@, items_eq(st, xs@, ys@, i as int, d1)),
                    decreases xs.len() - i,
                {
                    match self.struct_equal(xs[i], ys[i], d - 1) {
                        Some(p) => {
                            proof {
                                lemma_prepend_assoc(acc@, p@, items_eq(st, xs@, ys@, i + 1, d1));
                            }
                            let mut p = p;
                            acc.append(&mut p);
                        },
                        None => {
                            return None;
                        },
                    }
                    i = i + 1;
                }
                assert(acc@ + Seq::<(usize, usize)>::empty() =~= acc@);
                Some(acc)
            },
            (Val::Object(x), Val::Object(y)) => {
                let none: Vec<(String, Val)> = Vec::new();
                let xs = match self.object(x) {
                    Some(v) => v,
                    None => &none,
                };
                let ys = match self.object(y) {
                    Some(v) => v,
                    None => &none,
                };
                assert(fields_view(xs@) =~= object_at(self@, x as nat));
                assert(fields_view(ys@) =~= object_at(self@, y as nat));
                if xs.len() != ys.len() {
                    return None;
                }
                match self.fields_equal(xs, ys, d - 1) {
                    Some(p) => match self.fields_equal(ys, xs, d - 1) {
                        Some(q) => {
                            let mut p = p;
                            let mut q = q;
                            p.append(&mut q);
                            Some(p)
                        },
                        None => None,
                    },
                    None => None,
                }
            },
            (Val::Opaque(x), Val::Opaque(y)) => {
                if x == y {
                    Some(Vec::new())
                } else {
                    None
                }
            },
            _ => None,
        }
    }
}

impl Runtime {
    /// Each field of `xs` looked up in `ys` and compared, `d` levels deep:
    /// the pairs of numbers in turn, or `None` when a field is missing or
    /// differs otherwise.
    fn fields_equal(&self, xs: &Vec<(String, Val)>, ys: &Vec<(String, Val)>, d: usize) -> (r: Option<
        Vec<(usize, usize)>,
    >)
        ensures
            match r {
                Some(v) => fields_eq(self@, fields_view(xs@), fields_view(ys@), 0, d as nat) == Some(v@),
                None => fields_eq(self@, fields_view(xs@), fields_view(ys@), 0, d as nat) is None,
            },
        decreases d, 2int,
    {
        let ghost xv = fields_view(xs@);
        let ghost yv = fields_view(ys@);
        let ghost st = self@;
        let mut acc: Vec<(usize, usize)> = Vec::new();
        let mut i: usize = 0;
        assert(acc@ + fields_eq(st, xv, yv, 0, d as nat)->0 =~= fields_eq(st, xv, yv, 0, d as nat)->0);
        while i < xs.len()
            invariant
                st == self@,
                xv == fields_view(xs@),
                yv == fields_view(ys@),
                i <= xs@.len(),
                fields_eq(st, xv, yv, 0, d as nat) == prepend(acc@, fields_eq(st, xv, yv, i as int, d as nat)),
            decreases xs.len() - i,
        {
            assert(xv[i as int] == (xs@[i as int].0@, xs@[i as int].1));
            match field_of(ys, xs[i].0.as_str()) {
                Some(w) => match self.struct_equal(xs[i].1, w, d) {
                    Some(p) => {
                        proof {
                            lemma_prepend_assoc(acc@, p@, fields_eq(st, xv, yv, i + 1, d as nat));
                        }
                        let mut p = p;
                        acc.append(&mut p);
                    },
                    None => {
                        return None;
                    },
                },
                None => {
                    return None;
                },
            }
            i = i + 1;
        }
        assert(acc@ + Seq::<(usize, usize)>::empty() =~= acc@);
        Some(acc)
    }
}

/// A field lookup gives the value of the first field with that name, and
/// nothing when no field has it.
pub proof fn law_field_lookup(fs: Seq<(Seq<char>, Val)>, key: Seq<char>, i: int)
    ensures
        0 <= i < fs.len() && fs[i].0 == key && (forall|j: int| 0 <= j < i ==> fs[j].0 != key)
            ==> crate::runtime::field_value(fs, key) == Some(fs[i].1),
        (forall|j: int| 0 <= j < fs.len() ==> fs[j].0 != key) ==> crate::runtime::field_value(fs, key) is None,
    decreases fs.len(),
{
    if fs.len() > 0 {
        let rest = fs.drop_first();
        law_field_lookup(rest, key, i - 1);
        if 0 < i < fs.len() && fs[i].0 == key && (forall|j: int| 0 <= j < i ==> fs[j].0 != key) {
            assert(fs[0].0 != key);
            assert(rest[i - 1] == fs[i]);
            assert forall|j: int| 0 <= j < i - 1 implies rest[j].0 != key by {
                assert(rest[j] == fs[j + 1]);
            }
        }
        if forall|j: int| 0 <= j < fs.len() ==> fs[j].0 != key {
            assert(fs[0].0 != key);
            assert forall|j: int| 0 <= j < rest.len() implies rest[j].0 != key by {
                assert(rest[j] == fs[j + 1]);
            }
        }
    }
}

/// Setting a field and then reading it gives the value set; reading
/// another name gives what it gave before.
pub proof fn law_field_after_put(fs: Seq<(Seq<char>, Val)>, key: Seq<char>, other: Seq<char>, v: Val)
    ensures
        crate::runtime::field_value(crate::runtime::put_field(fs, key, v), key) == Some(v),
        other != key ==> crate::runtime::field_value(crate::runtime::put_field(fs, key, v), other)
            == crate::runtime::field_value(fs, other),
    decreases fs.len(),
{
    if fs.len() > 0 {
        if fs[0].0 == key {
            let u = fs.update(0, (key, v));
            assert(u.drop_first() =~= fs.drop_first());
            assert(u[0] == (key, v));
            assert(crate::runtime::put_field(fs, key, v) == u);
        } else {
            law_field_after_put(fs.drop_first(), key, other, v);
            let u = seq![fs[0]] + crate::runtime::put_field(fs.drop_first(), key, v);
            assert(u.drop_first() =~= crate::runtime::put_field(fs.drop_first(), key, v));
            assert(u[0] == fs[0]);
        }
    } else {
        let u = seq![(key, v)];
        assert(u.drop_first() =~= Seq::<(Seq<char>, Val)>::empty());
        assert(crate::runtime::field_value(u.drop_first(), other) is None);
        assert(crate::runtime::put_field(fs, key, v) == u);
    }
}

/// The value of the first field of `fs` named `key`.
fn field_of(fs: &Vec<(String, Val)>, key: &str) -> (r: Option<Val>)
    ensures
        r == field_in(fields_view(fs@), key@),
{
    let ghost fv = fields_view(fs@);
    let mut i: usize = 0;
    assert(fv.skip(0) =~= fv);
    while i < fs.len()
        invariant
            fv == fields_view(fs@),
            i <= fs@.len(),
            field_in(fv, key@) == crate::runtime::field_value(fv.skip(i as int), key@),
        decreases fs.len() - i,
    {
        assert(fv.skip(i as int).drop_first() =~= fv.skip(i + 1));
        assert(fv.skip(i as int)[0] == fv[i as int]);
        assert(fv[i as int] == (fs@[i as int].0@, fs@[i as int].1));
        if text_eq(fs[i].0.as_str(), key) {
            return Some(fs[i].1);
        }
        i = i + 1;
    }
    assert(fv.skip(i as int).len() == 0);
    None
}


/// The state with the items of the array at `h` replaced.
pub open spec fn with_items(st: RtView, h: nat, items: Seq<Val>) -> RtView {
    RtView { arrays: st.arrays.update(h as int, items), ..st }
}

/// The state with the texts `ts` stored one after another.
pub open spec fn with_texts(st: RtView, ts: Seq<Seq<char>>) -> RtView {
    RtView { texts: st.texts + ts, ..st }
}

/// Strings referring to the `n` texts stored from index `first` on.
pub open spec fn strings_from(first: nat, n: nat) -> Seq<Val> {
    Seq::new(n, |i: int| Val::String((first + i) as usize))
}

impl Runtime {
    /// `str.length`: the number of bytes of a string's UTF-8 encoding;
    /// nothing for any other value.
    pub fn str_length(&mut self, v: Val) -> (r: Val)
        ensures
            final(self).log() == old(self).log(),
            match v {
                Val::String(h) if h < old(self)@.texts.len() => (final(self)@, r) == count_value(
                    old(self)@,
                    encode_utf8(old(self)@.texts[h as int]).len(),
                ),
                _ => r is Void && final(self)@ == old(self)@,
            },
    {
        match v {
            Val::String(h) => match self.text(h) {
                Some(t) => {
                    let n = t.as_bytes().len();
                    self.count(n)
                },
                None => Val::Void,
            },
            _ => Val::Void,
        }
    }

    /// `arr.length`: the number of items of an array; nothing for any other
    /// value.
    pub fn arr_length(&mut self, a: Val) -> (r: Val)
        ensures
            final(self).log() == old(self).log(),
            match a {
                Val::Array(h) if h < old(self)@.arrays.len() => (final(self)@, r) == count_value(
                    old(self)@,
                    old(self)@.arrays[h as int].len(),
                ),
                _ => r is Void && final(self)@ == old(self)@,
            },
    {
        match a {
            Val::Array(h) => match self.array(h) {
                Some(items) => {
                    let n = items.len();
                    self.count(n)
                },
                None => Val::Void,
            },
            _ => Val::Void,
        }
    }

    /// `arr.get`: the item at index `i` of an array; nothing when there is
    /// no index, no such item, or no array.
    pub fn arr_get(&self, a: Val, i: Option<usize>) -> (r: Val)
        ensures
            r == (match (a, i) {
                (Val::Array(h), Some(n)) => if n < array_at(self@, h as nat).len() {
                    array_at(self@, h as nat)[n as int]
                } else {
                    Val::Void
                },
                _ => Val::Void,
            }),
    {
        match (a, i) {
            (Val::Array(h), Some(n)) => match self.array(h) {
                Some(items) => if n < items.len() {
                    items[n]
                } else {
                    Val::Void
                },
                None => Val::Void,
            },
            _ => Val::Void,
        }
    }

    /// `arr.push`: appends `v` to an array; any other value is left alone.
    pub fn arr_push(&mut self, a: Val, v: Val)
        ensures
            final(self).log() == old(self).log(),
            final(self)@ == (match a {
                Val::Array(h) if h < old(self)@.arrays.len() => with_items(
                    old(self)@,
                    h as nat,
                    old(self)@.arrays[h as int].push(v),
                ),
                _ => old(self)@,
            }),
    {
        if let Val::Array(h) = a {
            if let Some(items) = self.array(h) {
                let mut items = items.clone();
                assert(items@ =~= old(self)@.arrays[h as int]);
                items.push(v);
                self.set_array(h, items);
            }
        }
    }

    /// `arr.pop`: removes and gives the last item of an array; nothing when
    /// it is empty or the value is not an array.
    pub fn arr_pop(&mut self, a: Val) -> (r: Val)
        ensures
            final(self).log() == old(self).log(),
            match a {
                Val::Array(h) if h < old(self)@.arrays.len() && old(self)@.arrays[h as int].len() > 0 => {
                    &&& r == old(self)@.arrays[h as int].last()
                    &&& final(self)@ == with_items(old(self)@, h as nat, old(self)@.arrays[h as int].drop_last())
                },
                _ => r is Void && final(self)@ == old(self)@,
            },
    {
        if let Val::Array(h) = a {
            if let Some(items) = self.array(h) {
                if items.len() > 0 {
                    let mut items = items.clone();
                    assert(items@ =~= old(self)@.arrays[h as int]);
                    let last = items.pop().unwrap();
                    self.set_array(h, items);
                    return last;
                }
            }
        }
        Val::Void
    }

    /// `obj.get`: the value of the field `key` of an object; nothing when it
    /// has none or the value is not an object.
    pub fn obj_get(&self, m: Val, key: &str) -> (r: Val)
        ensures
            r == (match m {
                Val::Object(h) => object_field(self@, h as nat, key@),
                _ => Val::Void,
            }),
    {
        match m {
            Val::Object(h) => self.object_get(h, key),
            _ => Val::Void,
        }
    }

    /// `obj.keys`: a new array of the keys of an object, each stored as a
    /// new string, in field order; nothing for any other value.
    pub fn obj_keys(&mut self, m: Val) -> (r: Val)
        ensures
            final(self).log() == old(self).log(),
            match m {
                Val::Object(h) if h < old(self)@.objects.len() => {
                    let fs = old(self)@.objects[h as int];
                    let keys = fs.map_values(|f: (Seq<char>, Val)| f.0);
                    &&& r == Val::Array(old(self)@.arrays.len() as usize)
                    &&& final(self)@ == with_array(
                        with_texts(old(self)@, keys),
                        strings_from(old(self)@.texts.len(), fs.len()),
                    )
                },
                _ => r is Void && final(self)@ == old(self)@,
            },
    {
        let h = match m {
            Val::Object(h) => h,
            _ => return Val::Void,
        };
        let ghost st0 = self@;
        let mut names: Vec<String> = Vec::new();
        match self.object(h) {
            Some(fs) => {
                let ghost fv = fields_view(fs@);
                let mut i: usize = 0;
                while i < fs.len()
                    invariant
                        fv == fields_view(fs@),
                        i <= fs@.len(),
                        names@.len() == i,
                        forall|j: int| 0 <= j < i ==> #[trigger] names@[j]@ == fv[j].0,
                    decreases fs.len() - i,
                {
                    assert(fv[i as int] == (fs@[i as int].0@, fs@[i as int].1));
                    names.push(fs[i].0.clone());
                    i = i + 1;
                }
            },
            None => return Val::Void,
        }
        let ghost fv = st0.objects[h as int];
        let ghost keys = fv.map_values(|f: (Seq<char>, Val)| f.0);
        let mut out: Vec<Val> = Vec::new();
        let mut j: usize = 0;
        assert(keys.take(0) =~= Seq::<Seq<char>>::empty());
        assert(with_texts(st0, keys.take(0)) =~= st0) by {
            assert(st0.texts + keys.take(0) =~= st0.texts);
        }
        assert(out@ =~= strings_from(st0.texts.len(), 0));
        while j < names.len()
            invariant
                keys == fv.map_values(|f: (Seq<char>, Val)| f.0),
                names@.len() == fv.len(),
                forall|i: int| 0 <= i < fv.len() ==> #[trigger] names@[i]@ == fv[i].0,
                j <= names@.len(),
                self.log() == old(self).log(),
                self@ == with_texts(st0, keys.take(j as int)),
                out@ == strings_from(st0.texts.len(), j as nat),
            decreases names.len() - j,
        {
            let k = names[j].clone();
            let ghost kv = k@;
            assert(kv == keys[j as int]);
            let n = self.alloc_text(k);
            out.push(Val::String(n));
            proof {
                assert(keys.take(j + 1) =~= keys.take(j as int).push(kv));
                assert(st0.texts + keys.take(j + 1) =~= (st0.texts + keys.take(j as int)).push(kv));
                assert(out@ =~= strings_from(st0.texts.len(), (j + 1) as nat));
            }
            j = j + 1;
        }
        assert(keys.take(j as int) =~= keys);
        let h = self.alloc_array(out);
        Val::Array(h)
    }

    /// `obj.values`: a new array of the values of an object's fields, in
    /// field order; nothing for any other value.
    pub fn obj_values(&mut self, m: Val) -> (r: Val)
        ensures
            final(self).log() == old(self).log(),
            match m {
                Val::Object(h) if h < old(self)@.objects.len() => {
                    &&& r == Val::Array(old(self)@.arrays.len() as usize)
                    &&& final(self)@ == with_array(
                        old(self)@,
                        old(self)@.objects[h as int].map_values(|f: (Seq<char>, Val)| f.1),
                    )
                },
                _ => r is Void && final(self)@ == old(self)@,
            },
    {
        let h = match m {
            Val::Object(h) => h,
            _ => return Val::Void,
        };
        let mut out: Vec<Val> = Vec::new();
        match self.object(h) {
            Some(fs) => {
                let ghost fv = fields_view(fs@);
                let mut i: usize = 0;
                while i < fs.len()
                    invariant
                        fv == fields_view(fs@),
                        i <= fs@.len(),
                        out@ == fv.take(i as int).map_values(|f: (Seq<char>, Val)| f.1),
                    decreases fs.len() - i,
                {
                    out.push(fs[i].1);
                    proof {
                        assert(fv[i as int] == (fs@[i as int].0@, fs@[i as int].1));
                        assert(out@ =~= fv.take(i + 1).map_values(|f: (Seq<char>, Val)| f.1));
                    }
                    i = i + 1;
                }
                assert(fv.take(i as int) =~= fv);
            },
            None => return Val::Void,
        }
        let a = self.alloc_array(out);
        Val::Array(a)
    }
}

/// What `regex.match` decides: with a compiled regex, whether it matches
/// the text; with anything else, whether the text contains that value's
/// text.
pub fn regex_match(text: &str, re: Option<&HankRegex>, other: &str) -> (r: bool)
    ensures
        r == (match re {
            Some(x) => regex_matches(x.pattern(), text@),
            None => contains_text(text@, other@),
        }),
{
    match re {
        Some(x) => is_match(x, text),
        None => text_contains(text, other),
    }
}


/// Popping an array right after pushing `v` onto it gives `v` back and
/// leaves the state as it was before the push.
pub proof fn law_pop_undoes_push(st: RtView, h: nat, v: Val)
    requires
        h < st.arrays.len(),
    ensures
        with_items(st, h, st.arrays[h as int].push(v)).arrays[h as int].last() == v,
        with_items(
            with_items(st, h, st.arrays[h as int].push(v)),
            h,
            with_items(st, h, st.arrays[h as int].push(v)).arrays[h as int].drop_last(),
        ) == st,
{
    let st1 = with_items(st, h, st.arrays[h as int].push(v));
    assert(st1.arrays[h as int].drop_last() =~= st.arrays[h as int]);
    assert(with_items(st1, h, st1.arrays[h as int].drop_last()).arrays =~= st.arrays);
}


/// Whether all the pairs of numbers `p` are equal by `eqn`.
pub open spec fn pairs_hold(p: Seq<(usize, usize)>, eqn: spec_fn(usize, usize) -> bool) -> bool {
    forall|i: int| 0 <= i < p.len() ==> #[trigger] eqn(p[i].0, p[i].1)
}

/// Whether `a` equals `b`, looking `d` levels deep, when numbers are
/// compared by `eqn`: they agree in everything but numbers, and their
/// numbers are equal by `eqn`.
pub open spec fn values_equal(st: RtView, a: Val, b: Val, d: nat, eqn: spec_fn(usize, usize) -> bool) -> bool {
    match struct_eq(st, a, b, d) {
        Some(p) => pairs_hold(p, eqn),
        None => false,
    }
}

proof fn lemma_pairs_concat(p: Seq<(usize, usize)>, q: Seq<(usize, usize)>, eqn: spec_fn(usize, usize) -> bool)
    ensures
        pairs_hold(p + q, eqn) == (pairs_hold(p, eqn) && pairs_hold(q, eqn)),
{
    if pairs_hold(p, eqn) && pairs_hold(q, eqn) {
        assert forall|i: int| 0 <= i < (p + q).len() implies #[trigger] eqn((p + q)[i].0, (p + q)[i].1) by {
            if i < p.len() {
                assert((p + q)[i] == p[i]);
            } else {
                assert((p + q)[i] == q[i - p.len()]);
            }
        }
    }
    if pairs_hold(p + q, eqn) {
        assert forall|i: int| 0 <= i < p.len() implies #[trigger] eqn(p[i].0, p[i].1) by {
            assert((p + q)[i] == p[i]);
        }
        assert forall|i: int| 0 <= i < q.len() implies #[trigger] eqn(q[i].0, q[i].1) by {
            assert((p + q)[i + p.len()] == q[i]);
        }
    }
}

proof fn lemma_items_forall(st: RtView, xs: Seq<Val>, ys: Seq<Val>, i: int, d: nat, eqn: spec_fn(usize, usize) -> bool)
    requires
        xs.len() == ys.len(),
        0 <= i <= xs.len(),
    ensures
        (match items_eq(st, xs, ys, i, d) {
            Some(p) => pairs_hold(p, eqn),
            None => false,
        }) <==> (forall|k: int| i <= k < xs.len() ==> #[trigger] values_equal(st, xs[k], ys[k], d, eqn)),
    decreases xs.len() - i,
{
    if i < xs.len() {
        lemma_items_forall(st, xs, ys, i + 1, d, eqn);
        let here = values_equal(st, xs[i], ys[i], d, eqn);
        match struct_eq(st, xs[i], ys[i], d) {
            Some(p) => {
                if let Some(q) = items_eq(st, xs, ys, i + 1, d) {
                    lemma_pairs_concat(p, q, eqn);
                }
            },
            None => {},
        }
        if forall|k: int| i + 1 <= k < xs.len() ==> #[trigger] values_equal(st, xs[k], ys[k], d, eqn) {
        } else {
            let k = choose|k: int| i + 1 <= k < xs.len() && !#[trigger] values_equal(st, xs[k], ys[k], d, eqn);
            assert(!values_equal(st, xs[k], ys[k], d, eqn));
        }
    } else {
        assert(pairs_hold(Seq::empty(), eqn));
    }
}

proof fn lemma_equal_flips(st: RtView, a: Val, b: Val, d: nat, eqn: spec_fn(usize, usize) -> bool)
    requires
        forall|x: usize, y: usize| #[trigger] eqn(x, y) == eqn(y, x),
        values_equal(st, a, b, d, eqn),
    ensures
        values_equal(st, b, a, d, eqn),
    decreases d,
{
    let d1 = (d - 1) as nat;
    match (a, b) {
        (Val::Number(x), Val::Number(y)) => {
            let p = seq![(x, y)];
            assert(p[0] == (x, y));
            assert(eqn(p[0].0, p[0].1));
            assert(eqn(y, x));
            let q = seq![(y, x)];
            assert forall|i: int| 0 <= i < q.len() implies #[trigger] eqn(q[i].0, q[i].1) by {
                assert(q[i] == (y, x));
            }
        },
        (Val::Array(x), Val::Array(y)) => {
            let xs = array_at(st, x as nat);
            let ys = array_at(st, y as nat);
            lemma_items_forall(st, xs, ys, 0, d1, eqn);
            lemma_items_forall(st, ys, xs, 0, d1, eqn);
            assert forall|k: int| 0 <= k < ys.len() implies #[trigger] values_equal(st, ys[k], xs[k], d1, eqn) by {
                assert(values_equal(st, xs[k], ys[k], d1, eqn));
                lemma_equal_flips(st, xs[k], ys[k], d1, eqn);
            }
        },
        (Val::Object(x), Val::Object(y)) => {
            let xs = object_at(st, x as nat);
            let ys = object_at(st, y as nat);
            let p = fields_eq(st, xs, ys, 0, d1)->0;
            let q = fields_eq(st, ys, xs, 0, d1)->0;
            lemma_pairs_concat(p, q, eqn);
            lemma_pairs_concat(q, p, eqn);
        },
        _ => {},
    }
}

/// The plain cases of equality: nothing equals nothing; two numbers are
/// equal when the pair of them is; an opaque value equals only itself; a
/// task or an error equals nothing; values of different kinds are unequal.
pub proof fn law_equality_leaves(st: RtView, a: Val, b: Val, x: usize, y: usize, d: nat)
    requires
        d > 0,
    ensures
        struct_eq(st, Val::Void, Val::Void, d) == Some(Seq::<(usize, usize)>::empty()),
        struct_eq(st, Val::Number(x), Val::Number(y), d) == Some(seq![(x, y)]),
        (struct_eq(st, Val::Opaque(x), Val::Opaque(y), d) is Some) == (x == y),
        struct_eq(st, Val::Task(x), b, d) is None,
        struct_eq(st, Val::Error(x), b, d) is None,
        kind_of(a) != kind_of(b) ==> struct_eq(st, a, b, d) is None,
{
}

/// Two arrays are equal, up to the numbers they hold, exactly when they
/// have as many items and the items at each index are.
pub proof fn law_arrays_equal_by_items(st: RtView, x: usize, y: usize, d: nat)
    requires
        d > 0,
    ensures
        (struct_eq(st, Val::Array(x), Val::Array(y), d) is Some) == (array_at(st, x as nat).len() == array_at(
            st,
            y as nat,
        ).len() && forall|k: int|
            0 <= k < array_at(st, x as nat).len() ==> (#[trigger] struct_eq(
                st,
                array_at(st, x as nat)[k],
                array_at(st, y as nat)[k],
                (d - 1) as nat,
            )) is Some),
{
    let xs = array_at(st, x as nat);
    let ys = array_at(st, y as nat);
    let d1 = (d - 1) as nat;
    let any = |u: usize, w: usize| true;
    if xs.len() == ys.len() {
        assert(struct_eq(st, Val::Array(x), Val::Array(y), d) == items_eq(st, xs, ys, 0, d1));
        lemma_items_forall(st, xs, ys, 0, d1, any);
        assert forall|i: int| 0 <= i < xs.len() implies (#[trigger] values_equal(st, xs[i], ys[i], d1, any))
            == (struct_eq(st, xs[i], ys[i], d1) is Some) by {
            if let Some(q) = struct_eq(st, xs[i], ys[i], d1) {
                assert(pairs_hold(q, any));
            }
        }
        if let Some(q) = items_eq(st, xs, ys, 0, d1) {
            assert(pairs_hold(q, any));
            assert forall|k: int| 0 <= k < xs.len() implies (#[trigger] struct_eq(st, xs[k], ys[k], d1)) is Some by {
                assert(values_equal(st, xs[k], ys[k], d1, any));
            }
        }
        if forall|k: int| 0 <= k < xs.len() ==> (#[trigger] struct_eq(st, xs[k], ys[k], d1)) is Some {
            assert forall|k: int| 0 <= k < xs.len() implies #[trigger] values_equal(st, xs[k], ys[k], d1, any) by {
                assert(struct_eq(st, xs[k], ys[k], d1) is Some);
            }
        }
    }
}

proof fn lemma_fields_some(st: RtView, xs: Seq<(Seq<char>, Val)>, ys: Seq<(Seq<char>, Val)>, i: int, d: nat)
    requires
        0 <= i <= xs.len(),
    ensures
        (fields_eq(st, xs, ys, i, d) is Some) == (forall|k: int|
            i <= k < xs.len() ==> (#[trigger] field_in(ys, xs[k].0) matches Some(w) && struct_eq(
                st,
                xs[k].1,
                w,
                d,
            ) is Some)),
    decreases xs.len() - i,
{
    if i < xs.len() {
        lemma_fields_some(st, xs, ys, i + 1, d);
        if !(forall|k: int|
            i + 1 <= k < xs.len() ==> (#[trigger] field_in(ys, xs[k].0) matches Some(w) && struct_eq(
                st,
                xs[k].1,
                w,
                d,
            ) is Some)) {
            let k = choose|k: int|
                i + 1 <= k < xs.len() && !(#[trigger] field_in(ys, xs[k].0) matches Some(w) && struct_eq(
                    st,
                    xs[k].1,
                    w,
                    d,
                ) is Some);
            assert(!(field_in(ys, xs[k].0) matches Some(w) && struct_eq(st, xs[k].1, w, d) is Some));
        }
    }
}

/// Two objects are equal, up to the numbers they hold, exactly when they
/// have as many fields and each field of either is found in the other
/// with an equal value.
pub proof fn law_objects_equal_by_fields(st: RtView, x: usize, y: usize, d: nat)
    requires
        d > 0,
    ensures
        (struct_eq(st, Val::Object(x), Val::Object(y), d) is Some) == ({
            let xs = object_at(st, x as nat);
            let ys = object_at(st, y as nat);
            &&& xs.len() == ys.len()
            &&& forall|k: int|
                0 <= k < xs.len() ==> (#[trigger] field_in(ys, xs[k].0) matches Some(w) && struct_eq(
                    st,
                    xs[k].1,
                    w,
                    (d - 1) as nat,
                ) is Some)
            &&& forall|k: int|
                0 <= k < ys.len() ==> (#[trigger] field_in(xs, ys[k].0) matches Some(w) && struct_eq(
                    st,
                    ys[k].1,
                    w,
                    (d - 1) as nat,
                ) is Some)
        }),
{
    let xs = object_at(st, x as nat);
    let ys = object_at(st, y as nat);
    lemma_fields_some(st, xs, ys, 0, (d - 1) as nat);
    lemma_fields_some(st, ys, xs, 0, (d - 1) as nat);
}

/// Equality of values is symmetric: in every state, when numbers are
/// compared by a symmetric relation, `a` equals `b` exactly when `b` equals
/// `a`.
pub proof fn law_equality_symmetric(st: RtView, a: Val, b: Val, d: nat, eqn: spec_fn(usize, usize) -> bool)
    requires
        forall|x: usize, y: usize| #[trigger] eqn(x, y) == eqn(y, x),
    ensures
        values_equal(st, a, b, d, eqn) == values_equal(st, b, a, d, eqn),
{
    if values_equal(st, a, b, d, eqn) {
        lemma_equal_flips(st, a, b, d, eqn);
    }
    if values_equal(st, b, a, d, eqn) {
        lemma_equal_flips(st, b, a, d, eqn);
    }
}


/// The state after a task named `task` was handed a value of kind `got`
/// where it expects kind `want`: the three texts of the message stored, then
/// the error.
pub open spec fn mismatch_state(st: RtView, want: ValueType, got: ValueType, task: Seq<char>) -> RtView {
    let n = st.texts.len();
    with_error(
        with_texts(st, seq![value_type_label(want), value_type_label(got), task]),
        HankError::TypeMismatch,
        seq![Val::String(n as usize), Val::String((n + 1) as usize), Val::String((n + 2) as usize)],
    )
}

impl Runtime {
    /// The argument check of a host task named `task`: nothing when `v` is of
    /// kind `want`; else a type mismatch error naming the kind wanted, the
    /// kind given and the task.
    pub fn expect_kind(&mut self, v: Val, want: ValueType, task: &str) -> (r: Result<(), Val>)
        ensures
            final(self).log() == old(self).log(),
            kind_of(v) == want ==> r is Ok && final(self)@ == old(self)@,
            kind_of(v) != want ==> r == Err::<(), Val>(Val::Error(old(self)@.errors.len() as usize))
                && final(self)@ == mismatch_state(old(self)@, want, kind_of(v), task@),
    {
        let got = value_kind(v);
        if got == want {
            return Ok(());
        }
        let ghost st0 = self@;
        let a = self.alloc_text(want.name().to_owned());
        let b = self.alloc_text(got.name().to_owned());
        let c = self.alloc_text(task.to_owned());
        let args = vec![Val::String(a), Val::String(b), Val::String(c)];
        let h = self.alloc_error(HankError::TypeMismatch, args);
        proof {
            assert(st0.texts.push(value_type_label(want)).push(value_type_label(got)).push(task@)
                =~= st0.texts + seq![value_type_label(want), value_type_label(got), task@]);
            assert(args@ =~= seq![Val::String(a), Val::String(b), Val::String(c)]);
        }
        Err(Val::Error(h))
    }
}

} // verus!
