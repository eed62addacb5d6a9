//! The `json` module: JSON text to runtime values and back, over
//! `serde_json`. The library holds JSON as a value of its own, a number by
//! its text; what `serde_json` reads and writes is named.
use vstd::prelude::*;
use crate::eval_spec::count_value;
use crate::text::decimal;
use crate::natives::{array_at, object_at};
use crate::runtime::{RtView, Runtime, Val, fields_view, text_at, with_array, with_object, with_text};

verus! {

/// A JSON value: a number is kept as its text.
#[derive(Debug, PartialEq)]
pub enum JsonValue {
    Null,
    Bool(bool),
    Number(String),
    Str(String),
    Array(Vec<JsonValue>),
    Object(Vec<(String, JsonValue)>),
}

/// The mathematical content of a [`JsonValue`].
pub enum JsonView {
    Null,
    Bool(bool),
    Number(Seq<char>),
    Str(Seq<char>),
    Array(Seq<JsonView>),
    Object(Seq<(Seq<char>, JsonView)>),
}

/// The content of a JSON value.
pub open spec fn json_view(j: JsonValue) -> JsonView
    decreases j,
{
    match j {
        JsonValue::Null => JsonView::Null,
        JsonValue::Bool(b) => JsonView::Bool(b),
        JsonValue::Number(t) => JsonView::Number(t@),
        JsonValue::Str(s) => JsonView::Str(s@),
        JsonValue::Array(v) => JsonView::Array(jsons_view(v@)),
        JsonValue::Object(f) => JsonView::Object(members_view(f@)),
    }
}

/// The contents of a list of JSON values.
pub open spec fn jsons_view(s: Seq<JsonValue>) -> Seq<JsonView>
    decreases s,
{
    if s.len() == 0 {
        Seq::empty()
    } else {
        jsons_view(s.subrange(0, s.len() - 1)).push(json_view(s[s.len() - 1]))
    }
}

/// The contents of the members of a JSON object.
pub open spec fn members_view(s: Seq<(String, JsonValue)>) -> Seq<(Seq<char>, JsonView)>
    decreases s,
{
    if s.len() == 0 {
        Seq::empty()
    } else {
        members_view(s.subrange(0, s.len() - 1)).push(
            (s[s.len() - 1].0@, json_view(s[s.len() - 1].1)),
        )
    }
}

impl View for JsonValue {
    type V = JsonView;

    open spec fn view(&self) -> JsonView {
        json_view(*self)
    }
}

/// The content of an optional JSON value.
pub open spec fn opt_json_view(r: Option<JsonValue>) -> Option<JsonView> {
    match r {
        Some(j) => Some(json_view(j)),
        None => None,
    }
}

/// The content of an optional text.
pub open spec fn opt_text_view(r: Option<String>) -> Option<Seq<char>> {
    match r {
        Some(t) => Some(t@),
        None => None,
    }
}

proof fn lemma_jsons_push(s: Seq<JsonValue>, j: JsonValue)
    ensures
        jsons_view(s.push(j)) == jsons_view(s).push(json_view(j)),
{
    assert(s.push(j).subrange(0, s.len() as int) =~= s);
}

proof fn lemma_members_push(s: Seq<(String, JsonValue)>, m: (String, JsonValue))
    ensures
        members_view(s.push(m)) == members_view(s).push((m.0@, json_view(m.1))),
{
    assert(s.push(m).subrange(0, s.len() as int) =~= s);
}

proof fn lemma_jsons_index(s: Seq<JsonValue>)
    ensures
        jsons_view(s).len() == s.len(),
        forall|i: int| 0 <= i < s.len() ==> #[trigger] jsons_view(s)[i] == json_view(s[i]),
    decreases s.len(),
{
    if s.len() > 0 {
        let init = s.subrange(0, s.len() - 1);
        lemma_jsons_index(init);
        assert forall|i: int| 0 <= i < s.len() implies #[trigger] jsons_view(s)[i] == json_view(s[i]) by {
            if i < s.len() - 1 {
                assert(init[i] == s[i]);
            }
        }
    }
}

proof fn lemma_members_index(s: Seq<(String, JsonValue)>)
    ensures
        members_view(s).len() == s.len(),
        forall|i: int| 0 <= i < s.len() ==> #[trigger] members_view(s)[i] == (s[i].0@, json_view(s[i].1)),
    decreases s.len(),
{
    if s.len() > 0 {
        let init = s.subrange(0, s.len() - 1);
        lemma_members_index(init);
        assert forall|i: int| 0 <= i < s.len() implies #[trigger] members_view(s)[i] == (s[i].0@,
            json_view(s[i].1)) by {
            if i < s.len() - 1 {
                assert(init[i] == s[i]);
            }
        }
    }
}

/// A JSON value as `serde_json` holds it.
#[verifier::external_type_specification]
#[verifier::external_body]
pub struct ExJson(serde_json::Value);

/// What `serde_json::from_str` reads from a text into a `serde_json::Value`:
/// `None` when the text is no JSON.
pub uninterp spec fn json_parsed(text: Seq<char>) -> Option<JsonView>;

/// What `serde_json::to_string` writes of a value built from a JSON value,
/// each number read back with `serde_json` from its text: `None` when a
/// number's text is no JSON number or the writing fails.
pub uninterp spec fn json_written(j: JsonView) -> Option<Seq<char>>;

/// Calls `serde_json::from_str` into a `serde_json::Value` and converts it
/// variant by variant: a number by the text `serde_json` writes for it, an
/// object's members in the order of its map. The contract only names the
/// result; how `serde_json` reads JSON is not stated.
#[verifier::external_body]
pub fn parse_json(text: &str) -> (r: Option<JsonValue>)
    ensures
        opt_json_view(r) == json_parsed(text@),
{
    serde_json::from_str::<serde_json::Value>(text).ok().map(from_serde)
}

/// Moves a `serde_json::Value` into a JSON value, one variant for each.
#[verifier::external_body]
fn from_serde(v: serde_json::Value) -> JsonValue {
    match v {
        serde_json::Value::Null => JsonValue::Null,
        serde_json::Value::Bool(b) => JsonValue::Bool(b),
        serde_json::Value::Number(n) => JsonValue::Number(n.to_string()),
        serde_json::Value::String(s) => JsonValue::Str(s),
        serde_json::Value::Array(a) => JsonValue::Array(a.into_iter().map(from_serde).collect()),
        serde_json::Value::Object(o) => JsonValue::Object(o.into_iter().map(|(k, x)| (k, from_serde(x))).collect()),
    }
}

/// Calls `serde_json::to_string` on the `serde_json::Value` a JSON value
/// converts to, variant by variant, each number read with `serde_json` from
/// its text. The contract only names the result; how `serde_json` writes
/// JSON is not stated.
#[verifier::external_body]
pub fn json_text(j: &JsonValue) -> (r: Option<String>)
    ensures
        opt_text_view(r) == json_written(j@),
{
    to_serde(j).and_then(|v| serde_json::to_string(&v).ok())
}

/// Moves a JSON value into a `serde_json::Value`, one variant for each; a
/// number's text is read with `serde_json`.
#[verifier::external_body]
fn to_serde(j: &JsonValue) -> Option<serde_json::Value> {
    match j {
        JsonValue::Null => Some(serde_json::Value::Null),
        JsonValue::Bool(b) => Some(serde_json::Value::Bool(*b)),
        JsonValue::Number(t) => serde_json::from_str::<serde_json::Number>(t).ok().map(serde_json::Value::Number),
        JsonValue::Str(s) => Some(serde_json::Value::String(s.clone())),
        JsonValue::Array(a) => a.iter().map(to_serde).collect::<Option<_>>().map(serde_json::Value::Array),
        JsonValue::Object(o) => {
            o.iter().map(|(k, x)| to_serde(x).map(|y| (k.clone(), y))).collect::<Option<_>>().map(
                serde_json::Value::Object,
            )
        },
    }
}

/// A JSON value stored in the runtime: `null` and `false` are nothing,
/// `true` the number 1, a number or string its text; an array's items and
/// an object's members are stored in order first.
pub open spec fn json_value_spec(st: RtView, j: JsonView) -> (RtView, Val)
    decreases j, 0int,
{
    match j {
        JsonView::Null => (st, Val::Void),
        JsonView::Bool(b) => if b {
            count_value(st, 1)
        } else {
            (st, Val::Void)
        },
        JsonView::Number(t) => (with_text(st, t), Val::Number(st.texts.len() as usize)),
        JsonView::Str(s) => (with_text(st, s), Val::String(st.texts.len() as usize)),
        JsonView::Array(items) => {
            let (st1, vals) = json_items_spec(st, items, 0, Seq::empty());
            (with_array(st1, vals), Val::Array(st1.arrays.len() as usize))
        },
        JsonView::Object(ms) => {
            let (st1, fs) = json_members_spec(st, ms, 0, Seq::empty());
            (with_object(st1, fs), Val::Object(st1.objects.len() as usize))
        },
    }
}

/// The items of a JSON array from `i` on, stored in turn after `acc`.
pub open spec fn json_items_spec(st: RtView, items: Seq<JsonView>, i: int, acc: Seq<Val>) -> (RtView, Seq<Val>)
    decreases items, items.len() - i,
{
    if i < 0 || i >= items.len() {
        (st, acc)
    } else {
        let (st1, v) = json_value_spec(st, items[i]);
        json_items_spec(st1, items, i + 1, acc.push(v))
    }
}

/// The members of a JSON object from `i` on, stored in turn after `acc`.
pub open spec fn json_members_spec(
    st: RtView,
    ms: Seq<(Seq<char>, JsonView)>,
    i: int,
    acc: Seq<(Seq<char>, Val)>,
) -> (RtView, Seq<(Seq<char>, Val)>)
    decreases ms, ms.len() - i,
{
    if i < 0 || i >= ms.len() {
        (st, acc)
    } else {
        let (st1, v) = json_value_spec(st, ms[i].1);
        json_members_spec(st1, ms, i + 1, acc.push((ms[i].0, v)))
    }
}

/// A runtime value as JSON, looking `d` levels deep: nothing is `null`, a
/// number or string its text, an array or object its items or members; an
/// opaque value has no JSON, and neither has a container holding one; a
/// task or an error is `null`.
pub open spec fn hal_to_json_spec(st: RtView, v: Val, d: nat) -> Option<JsonView>
    decreases d, 1int, 0int,
{
    if d == 0 {
        None
    } else {
        match v {
            Val::Void => Some(JsonView::Null),
            Val::Number(h) => Some(JsonView::Number(text_at(st, h as nat))),
            Val::String(h) => Some(JsonView::Str(text_at(st, h as nat))),
            Val::Array(h) => match hal_items_spec(st, array_at(st, h as nat), 0, (d - 1) as nat) {
                Some(items) => Some(JsonView::Array(items)),
                None => None,
            },
            Val::Object(h) => match hal_members_spec(st, object_at(st, h as nat), 0, (d - 1) as nat) {
                Some(ms) => Some(JsonView::Object(ms)),
                None => None,
            },
            Val::Opaque(_) => None,
            _ => Some(JsonView::Null),
        }
    }
}

/// The items from `i` on as JSON.
pub open spec fn hal_items_spec(st: RtView, vs: Seq<Val>, i: int, d: nat) -> Option<Seq<JsonView>>
    decreases d, 2int, vs.len() - i,
{
    if i < 0 || i >= vs.len() {
        Some(Seq::empty())
    } else {
        match hal_to_json_spec(st, vs[i], d) {
            Some(x) => match hal_items_spec(st, vs, i + 1, d) {
                Some(r) => Some(seq![x] + r),
                None => None,
            },
            None => None,
        }
    }
}

/// The fields from `i` on as JSON members.
pub open spec fn hal_members_spec(st: RtView, fs: Seq<(Seq<char>, Val)>, i: int, d: nat) -> Option<
    Seq<(Seq<char>, JsonView)>,
>
    decreases d, 2int, fs.len() - i,
{
    if i < 0 || i >= fs.len() {
        Some(Seq::empty())
    } else {
        match hal_to_json_spec(st, fs[i].1, d) {
            Some(x) => match hal_members_spec(st, fs, i + 1, d) {
                Some(r) => Some(seq![(fs[i].0, x)] + r),
                None => None,
            },
            None => None,
        }
    }
}


impl Runtime {
    /// Stores a JSON value: `null` and `false` give nothing, `true` the
    /// number 1, a number or a string its text, an array or an object its
    /// items or members, stored in order.
    pub fn json_to_value(&mut self, j: &JsonValue) -> (r: Val)
        ensures
            (final(self)@, r) == json_value_spec(old(self)@, j@),
            final(self).log() == old(self).log(),
        decreases j,
    {
        match j {
            JsonValue::Null => Val::Void,
            JsonValue::Bool(b) => {
                if *b {
                    self.count(1)
                } else {
                    Val::Void
                }
            },
            JsonValue::Number(t) => Val::Number(self.alloc_text(t.clone())),
            JsonValue::Str(s) => Val::String(self.alloc_text(s.clone())),
            JsonValue::Array(items) => {
                let ghost iv = jsons_view(items@);
                proof {
                    lemma_jsons_index(items@);
                }
                let mut vals: Vec<Val> = Vec::new();
                let mut i: usize = 0;
                while i < items.len()
                    invariant
                        i <= items.len(),
                        *j == JsonValue::Array(*items),
                        iv == jsons_view(items@),
                        iv.len() == items.len(),
                        forall|k: int| 0 <= k < items.len() ==> #[trigger] iv[k] == json_view(items@[k]),
                        json_items_spec(self@, iv, i as int, vals@) == json_items_spec(
                            old(self)@,
                            iv,
                            0,
                            Seq::empty(),
                        ),
                        self.log() == old(self).log(),
                    decreases items.len() - i,
                {
                    proof {
                        assert(decreases_to!((*j)->Array_0 => items@[i as int]));
                    }
                    let v = self.json_to_value(&items[i]);
                    vals.push(v);
                    i = i + 1;
                }
                let h = self.alloc_array(vals);
                Val::Array(h)
            },
            JsonValue::Object(members) => {
                let ghost mv = members_view(members@);
                proof {
                    lemma_members_index(members@);
                }
                let mut fields: Vec<(String, Val)> = Vec::new();
                let mut i: usize = 0;
                assert(fields_view(fields@) =~= Seq::empty());
                while i < members.len()
                    invariant
                        i <= members.len(),
                        *j == JsonValue::Object(*members),
                        mv == members_view(members@),
                        mv.len() == members.len(),
                        forall|k: int|
                            0 <= k < members.len() ==> #[trigger] mv[k] == (
                                members@[k].0@,
                                json_view(members@[k].1),
                            ),
                        json_members_spec(self@, mv, i as int, fields_view(fields@))
                            == json_members_spec(old(self)@, mv, 0, Seq::empty()),
                        self.log() == old(self).log(),
                    decreases members.len() - i,
                {
                    proof {
                        assert(decreases_to!((*j)->Object_0 => members@[i as int].1));
                    }
                    let v = self.json_to_value(&members[i].1);
                    let ghost before = fields@;
                    fields.push((members[i].0.clone(), v));
                    proof {
                        assert(fields_view(fields@) =~= fields_view(before).push((mv[i as int].0, v)));
                    }
                    i = i + 1;
                }
                let h = self.alloc_object(fields);
                Val::Object(h)
            },
        }
    }

    /// `json.parse`: the value that the JSON text stores; nothing, with the
    /// store unchanged, when the text is no JSON.
    pub fn json_parse(&mut self, text: &str) -> (r: Val)
        ensures
            match json_parsed(text@) {
                Some(j) => (final(self)@, r) == json_value_spec(old(self)@, j),
                None => final(self)@ == old(self)@ && r == Val::Void,
            },
            final(self).log() == old(self).log(),
    {
        match parse_json(text) {
            Some(j) => self.json_to_value(&j),
            None => Val::Void,
        }
    }
}

impl Runtime {
    /// The JSON of a value, looking `d` levels deep.
    fn json_of(&self, v: Val, d: usize) -> (r: Option<JsonValue>)
        ensures
            opt_json_view(r) == hal_to_json_spec(self@, v, d as nat),
        decreases d,
    {
        if d == 0 {
            return None;
        }
        match v {
            Val::Void => Some(JsonValue::Null),
            Val::Number(h) => Some(JsonValue::Number(self.text_or_empty(h))),
            Val::String(h) => Some(JsonValue::Str(self.text_or_empty(h))),
            Val::Array(h) => {
                let empty: Vec<Val> = Vec::new();
                let vs: &Vec<Val> = match self.array(h) {
                    Some(a) => a,
                    None => &empty,
                };
                let ghost sv = array_at(self@, h as nat);
                assert(vs@ == sv);
                let mut out: Vec<JsonValue> = Vec::new();
                let mut i: usize = 0;
                assert(jsons_view(out@) =~= Seq::empty());
                while i < vs.len()
                    invariant
                        0 < d,
                        i <= vs.len(),
                        vs@ == sv,
                        v == Val::Array(h),
                        sv == array_at(self@, h as nat),
                        hal_items_spec(self@, sv, 0, (d - 1) as nat) == (match hal_items_spec(
                            self@,
                            sv,
                            i as int,
                            (d - 1) as nat,
                        ) {
                            Some(rest) => Some(jsons_view(out@) + rest),
                            None => None::<Seq<JsonView>>,
                        }),
                    decreases vs.len() - i,
                {
                    match self.json_of(vs[i], d - 1) {
                        Some(x) => {
                            let ghost before = out@;
                            proof {
                                lemma_jsons_push(before, x);
                                let rest = hal_items_spec(self@, sv, i + 1, (d - 1) as nat);
                                if rest is Some {
                                    assert(jsons_view(before) + (seq![json_view(x)] + rest->0)
                                        =~= jsons_view(before).push(json_view(x)) + rest->0);
                                }
                            }
                            out.push(x);
                        },
                        None => {
                            assert(hal_items_spec(self@, sv, i as int, (d - 1) as nat) is None);
                            return None;
                        },
                    }
                    i = i + 1;
                }
                assert(jsons_view(out@) + Seq::<JsonView>::empty() =~= jsons_view(out@));
                Some(JsonValue::Array(out))
            },
            Val::Object(h) => {
                let empty: Vec<(String, Val)> = Vec::new();
                let fs: &Vec<(String, Val)> = match self.object(h) {
                    Some(o) => o,
                    None => &empty,
                };
                let ghost sv = object_at(self@, h as nat);
                assert(fields_view(fs@) == sv) by {
                    if h >= self@.objects.len() {
                        assert(fields_view(fs@) =~= Seq::empty());
                    }
                }
                let mut out: Vec<(String, JsonValue)> = Vec::new();
                let mut i: usize = 0;
                assert(members_view(out@) =~= Seq::empty());
                while i < fs.len()
                    invariant
                        0 < d,
                        i <= fs.len(),
                        fields_view(fs@) == sv,
                        v == Val::Object(h),
                        sv == object_at(self@, h as nat),
                        hal_members_spec(self@, sv, 0, (d - 1) as nat) == (match hal_members_spec(
                            self@,
                            sv,
                            i as int,
                            (d - 1) as nat,
                        ) {
                            Some(rest) => Some(members_view(out@) + rest),
                            None => None::<Seq<(Seq<char>, JsonView)>>,
                        }),
                    decreases fs.len() - i,
                {
                    assert(sv[i as int] == (fs@[i as int].0@, fs@[i as int].1));
                    match self.json_of(fs[i].1, d - 1) {
                        Some(x) => {
                            let ghost before = out@;
                            let key = fs[i].0.clone();
                            proof {
                                lemma_members_push(before, (key, x));
                                let rest = hal_members_spec(self@, sv, i + 1, (d - 1) as nat);
                                if rest is Some {
                                    assert(members_view(before) + (seq![(key@, json_view(x))] + rest->0)
                                        =~= members_view(before).push((key@, json_view(x))) + rest->0);
                                }
                            }
                            out.push((key, x));
                        },
                        None => {
                            assert(hal_members_spec(self@, sv, i as int, (d - 1) as nat) is None);
                            return None;
                        },
                    }
                    i = i + 1;
                }
                assert(members_view(out@) + Seq::<(Seq<char>, JsonView)>::empty() =~= members_view(out@));
                Some(JsonValue::Object(out))
            },
            Val::Opaque(_) => None,
            _ => Some(JsonValue::Null),
        }
    }

    /// The text at `h`; empty when there is none.
    fn text_or_empty(&self, h: usize) -> (r: String)
        ensures
            r@ == text_at(self@, h as nat),
    {
        match self.text(h) {
            Some(t) => t.to_string(),
            None => String::new(),
        }
    }

    /// The JSON of a value, with no bound on how deep it looks but that of
    /// the machine: an opaque value gives none, and so does a container
    /// that holds one.
    pub fn value_to_json(&self, v: Val) -> (r: Option<JsonValue>)
        ensures
            opt_json_view(r) == hal_to_json_spec(self@, v, usize::MAX as nat),
    {
        self.json_of(v, usize::MAX)
    }

    /// `json.stringify` after the JSON was taken: the JSON text, stored as a
    /// string; nothing, with the store unchanged, when there is no JSON or
    /// no text for it.
    pub fn json_stringify(&mut self, j: Option<JsonValue>) -> (r: Val)
        ensures
            match opt_json_view(j) {
                Some(jv) => match json_written(jv) {
                    Some(t) => final(self)@ == with_text(old(self)@, t) && r == Val::String(
                        old(self)@.texts.len() as usize,
                    ),
                    None => final(self)@ == old(self)@ && r == Val::Void,
                },
                None => final(self)@ == old(self)@ && r == Val::Void,
            },
            final(self).log() == old(self).log(),
    {
        match j {
            Some(x) => self.store_json_text(json_text(&x)),
            None => Val::Void,
        }
    }

    /// The JSON text of `json.stringify`, once written: stored as a string;
    /// nothing, with the store unchanged, when there is none.
    pub fn store_json_text(&mut self, t: Option<String>) -> (r: Val)
        ensures
            match t {
                Some(s) => final(self)@ == with_text(old(self)@, s@) && r == Val::String(
                    old(self)@.texts.len() as usize,
                ),
                None => final(self)@ == old(self)@ && r == Val::Void,
            },
            final(self).log() == old(self).log(),
    {
        match t {
            Some(s) => Val::String(self.alloc_text(s)),
            None => Val::Void,
        }
    }
}

/// The JSON that a stored JSON value reads back as: `true` is the number 1
/// and `false` is `null`; everything else is as it was.
pub open spec fn json_stored(j: JsonView) -> JsonView
    decreases j,
{
    match j {
        JsonView::Bool(b) => if b {
            JsonView::Number(decimal(1))
        } else {
            JsonView::Null
        },
        JsonView::Array(items) => JsonView::Array(
            Seq::new(
                items.len(),
                |k: int|
                    if 0 <= k < items.len() {
                        json_stored(items[k])
                    } else {
                        JsonView::Null
                    },
            ),
        ),
        JsonView::Object(ms) => JsonView::Object(
            Seq::new(
                ms.len(),
                |k: int|
                    if 0 <= k < ms.len() {
                        (ms[k].0, json_stored(ms[k].1))
                    } else {
                        (Seq::empty(), JsonView::Null)
                    },
            ),
        ),
        _ => j,
    }
}

/// Whether `d` levels are enough to read `j` back.
pub open spec fn json_fits(j: JsonView, d: nat) -> bool
    decreases j,
{
    &&& d > 0
    &&& match j {
        JsonView::Array(items) => forall|k: int| 0 <= k < items.len() ==> json_fits(#[trigger] items[k], (d - 1) as nat),
        JsonView::Object(ms) => forall|k: int| 0 <= k < ms.len() ==> json_fits(#[trigger] ms[k].1, (d - 1) as nat),
        _ => true,
    }
}

/// Whether the store of `st2` holds what that of `st` holds, with perhaps
/// more stored after it.
pub open spec fn store_grows(st: RtView, st2: RtView) -> bool {
    &&& st.texts.len() <= st2.texts.len()
    &&& forall|i: int| 0 <= i < st.texts.len() ==> #[trigger] st2.texts[i] == st.texts[i]
    &&& st.arrays.len() <= st2.arrays.len()
    &&& forall|i: int| 0 <= i < st.arrays.len() ==> #[trigger] st2.arrays[i] == st.arrays[i]
    &&& st.objects.len() <= st2.objects.len()
    &&& forall|i: int| 0 <= i < st.objects.len() ==> #[trigger] st2.objects[i] == st.objects[i]
}

proof fn lemma_value_grows(st: RtView, j: JsonView)
    ensures
        store_grows(st, json_value_spec(st, j).0),
    decreases j, 0int,
{
    match j {
        JsonView::Array(items) => {
            lemma_items_grows(st, items, 0, Seq::empty());
        },
        JsonView::Object(ms) => {
            lemma_members_grows(st, ms, 0, Seq::empty());
        },
        _ => {},
    }
}

proof fn lemma_items_grows(st: RtView, items: Seq<JsonView>, i: int, acc: Seq<Val>)
    ensures
        store_grows(st, json_items_spec(st, items, i, acc).0),
        0 <= i <= items.len() ==> json_items_spec(st, items, i, acc).1.len() == acc.len() + items.len() - i,
        json_items_spec(st, items, i, acc).1.subrange(0, acc.len() as int) == acc,
    decreases items, items.len() - i,
{
    if i < 0 || i >= items.len() {
        assert(acc.subrange(0, acc.len() as int) =~= acc);
    } else {
        let (st1, v) = json_value_spec(st, items[i]);
        lemma_value_grows(st, items[i]);
        lemma_items_grows(st1, items, i + 1, acc.push(v));
        let vals = json_items_spec(st1, items, i + 1, acc.push(v)).1;
        assert(vals.subrange(0, acc.len() as int) =~= vals.subrange(0, acc.len() + 1int).subrange(
            0,
            acc.len() as int,
        ));
        assert(acc.push(v).subrange(0, acc.len() as int) =~= acc);
    }
}

proof fn lemma_members_grows(
    st: RtView,
    ms: Seq<(Seq<char>, JsonView)>,
    i: int,
    acc: Seq<(Seq<char>, Val)>,
)
    ensures
        store_grows(st, json_members_spec(st, ms, i, acc).0),
        0 <= i <= ms.len() ==> json_members_spec(st, ms, i, acc).1.len() == acc.len() + ms.len() - i,
        json_members_spec(st, ms, i, acc).1.subrange(0, acc.len() as int) == acc,
    decreases ms, ms.len() - i,
{
    if i < 0 || i >= ms.len() {
        assert(acc.subrange(0, acc.len() as int) =~= acc);
    } else {
        let (st1, v) = json_value_spec(st, ms[i].1);
        lemma_value_grows(st, ms[i].1);
        lemma_members_grows(st1, ms, i + 1, acc.push((ms[i].0, v)));
        let fs = json_members_spec(st1, ms, i + 1, acc.push((ms[i].0, v))).1;
        assert(fs.subrange(0, acc.len() as int) =~= fs.subrange(0, acc.len() + 1int).subrange(
            0,
            acc.len() as int,
        ));
        assert(acc.push((ms[i].0, v)).subrange(0, acc.len() as int) =~= acc);
    }
}

proof fn lemma_items_all(st: RtView, vs: Seq<Val>, i: int, d: nat, xs: Seq<JsonView>)
    requires
        0 <= i <= vs.len(),
        xs.len() == vs.len(),
        forall|k: int| i <= k < vs.len() ==> #[trigger] hal_to_json_spec(st, vs[k], d) == Some(xs[k]),
    ensures
        hal_items_spec(st, vs, i, d) == Some(xs.subrange(i, xs.len() as int)),
    decreases vs.len() - i,
{
    if i < vs.len() {
        lemma_items_all(st, vs, i + 1, d, xs);
        assert(hal_to_json_spec(st, vs[i], d) == Some(xs[i]));
        assert(seq![xs[i]] + xs.subrange(i + 1, xs.len() as int) =~= xs.subrange(i, xs.len() as int));
    } else {
        assert(xs.subrange(i, xs.len() as int) =~= Seq::<JsonView>::empty());
    }
}

proof fn lemma_members_all(
    st: RtView,
    fs: Seq<(Seq<char>, Val)>,
    i: int,
    d: nat,
    xs: Seq<(Seq<char>, JsonView)>,
)
    requires
        0 <= i <= fs.len(),
        xs.len() == fs.len(),
        forall|k: int| i <= k < fs.len() ==> (#[trigger] xs[k]).0 == fs[k].0,
        forall|k: int| i <= k < fs.len() ==> #[trigger] hal_to_json_spec(st, fs[k].1, d) == Some(xs[k].1),
    ensures
        hal_members_spec(st, fs, i, d) == Some(xs.subrange(i, xs.len() as int)),
    decreases fs.len() - i,
{
    if i < fs.len() {
        lemma_members_all(st, fs, i + 1, d, xs);
        assert(hal_to_json_spec(st, fs[i].1, d) == Some(xs[i].1));
        assert(xs[i].0 == fs[i].0);
        assert(seq![(fs[i].0, xs[i].1)] + xs.subrange(i + 1, xs.len() as int) =~= xs.subrange(
            i,
            xs.len() as int,
        ));
    } else {
        assert(xs.subrange(i, xs.len() as int) =~= Seq::<(Seq<char>, JsonView)>::empty());
    }
}

/// Whether the store of `st` has room for every index to fit a `usize`.
pub open spec fn store_fits(st: RtView) -> bool {
    &&& st.texts.len() <= usize::MAX
    &&& st.arrays.len() <= usize::MAX
    &&& st.objects.len() <= usize::MAX
}

proof fn lemma_value_reads_back(st: RtView, j: JsonView, st2: RtView, d: nat)
    requires
        store_grows(json_value_spec(st, j).0, st2),
        store_fits(st2),
        json_fits(j, d),
    ensures
        hal_to_json_spec(st2, json_value_spec(st, j).1, d) == Some(json_stored(j)),
    decreases j, 0int,
{
    lemma_value_grows(st, j);
    match j {
        JsonView::Bool(b) => {
            if b {
                assert(json_value_spec(st, j) == count_value(st, 1));
                assert(count_value(st, 1).1 == Val::Number(st.texts.len() as usize));
                assert(st2.texts[st.texts.len() as int] == decimal(1));
                assert(text_at(st2, st.texts.len()) == decimal(1));
                assert(hal_to_json_spec(st2, Val::Number(st.texts.len() as usize), d) == Some(
                    JsonView::Number(decimal(1)),
                ));
                assert(json_stored(j) == JsonView::Number(decimal(1)));
                assert(json_value_spec(st, j).1 == Val::Number(st.texts.len() as usize));
                } else {
                assert(json_value_spec(st, j).1 == Val::Void);
                assert(json_stored(j) == JsonView::Null);
                }
        },
        JsonView::Number(t) => {
            assert(st2.texts[st.texts.len() as int] == t);
        },
        JsonView::Str(t) => {
            assert(st2.texts[st.texts.len() as int] == t);
        },
        JsonView::Array(items) => {
            let (st1, vals) = json_items_spec(st, items, 0, Seq::empty());
            lemma_items_grows(st, items, 0, Seq::empty());
            let h = st1.arrays.len();
            assert(st2.arrays[h as int] == vals);
            lemma_items_read(st, items, 0, Seq::empty(), st2, (d - 1) as nat);
            let xs = Seq::new(
                items.len(),
                |k: int|
                    if 0 <= k < items.len() {
                        json_stored(items[k])
                    } else {
                        JsonView::Null
                    },
            );
            assert forall|k: int| 0 <= k < vals.len() implies #[trigger] hal_to_json_spec(
                st2,
                vals[k],
                (d - 1) as nat,
            ) == Some(xs[k]) by {
                assert(hal_to_json_spec(st2, vals[0 + (k - 0)], (d - 1) as nat) == Some(json_stored(items[k])));
            }
            lemma_items_all(st2, vals, 0, (d - 1) as nat, xs);
            assert(xs.subrange(0, xs.len() as int) =~= xs);
            assert(array_at(st2, (h as usize) as nat) == vals);
            assert(json_stored(j) == JsonView::Array(xs)) by {
                assert(json_stored(j)->Array_0 =~= xs);
            }
        },
        JsonView::Object(ms) => {
            let (st1, fs) = json_members_spec(st, ms, 0, Seq::empty());
            lemma_members_grows(st, ms, 0, Seq::empty());
            let h = st1.objects.len();
            assert(st2.objects[h as int] == fs);
            lemma_members_read(st, ms, 0, Seq::empty(), st2, (d - 1) as nat);
            let xs = Seq::new(
                ms.len(),
                |k: int|
                    if 0 <= k < ms.len() {
                        (ms[k].0, json_stored(ms[k].1))
                    } else {
                        (Seq::empty(), JsonView::Null)
                    },
            );
            assert forall|k: int| 0 <= k < fs.len() implies #[trigger] hal_to_json_spec(
                st2,
                fs[k].1,
                (d - 1) as nat,
            ) == Some(xs[k].1) by {
                assert(hal_to_json_spec(st2, fs[0 + (k - 0)].1, (d - 1) as nat) == Some(json_stored(ms[k].1)));
            }
            assert forall|k: int| 0 <= k < fs.len() implies (#[trigger] xs[k]).0 == fs[k].0 by {
                assert(fs[0 + (k - 0)].0 == ms[k].0);
            }
            lemma_members_all(st2, fs, 0, (d - 1) as nat, xs);
            assert(xs.subrange(0, xs.len() as int) =~= xs);
            assert(object_at(st2, (h as usize) as nat) == fs);
            assert(json_stored(j) == JsonView::Object(xs)) by {
                assert(json_stored(j)->Object_0 =~= xs);
            }
        },
        JsonView::Null => {
        },
    }
}

proof fn lemma_items_read(st: RtView, items: Seq<JsonView>, i: int, acc: Seq<Val>, st2: RtView, d: nat)
    requires
        0 <= i <= items.len(),
        store_grows(json_items_spec(st, items, i, acc).0, st2),
        store_fits(st2),
        forall|k: int| i <= k < items.len() ==> json_fits(#[trigger] items[k], d),
    ensures
        forall|k: int|
            i <= k < items.len() ==> hal_to_json_spec(
                st2,
                #[trigger] json_items_spec(st, items, i, acc).1[acc.len() + (k - i)],
                d,
            ) == Some(json_stored(items[k])),
    decreases items, items.len() - i,
{
    if i < items.len() {
        let (st1, v) = json_value_spec(st, items[i]);
        let rest = json_items_spec(st1, items, i + 1, acc.push(v));
        lemma_items_grows(st1, items, i + 1, acc.push(v));
        lemma_items_read(st1, items, i + 1, acc.push(v), st2, d);
        assert(rest.0 == json_items_spec(st, items, i, acc).0);
        lemma_value_reads_back(st, items[i], st2, d);
        assert(rest.1.subrange(0, acc.len() + 1int)[acc.len() as int] == v);
        assert forall|k: int| i <= k < items.len() implies hal_to_json_spec(
            st2,
            #[trigger] json_items_spec(st, items, i, acc).1[acc.len() + (k - i)],
            d,
        ) == Some(json_stored(items[k])) by {
            if k > i {
                assert(acc.push(v).len() + (k - (i + 1)) == acc.len() + (k - i));
            }
        }
    }
}

proof fn lemma_members_read(
    st: RtView,
    ms: Seq<(Seq<char>, JsonView)>,
    i: int,
    acc: Seq<(Seq<char>, Val)>,
    st2: RtView,
    d: nat,
)
    requires
        0 <= i <= ms.len(),
        store_grows(json_members_spec(st, ms, i, acc).0, st2),
        store_fits(st2),
        forall|k: int| i <= k < ms.len() ==> json_fits(#[trigger] ms[k].1, d),
    ensures
        forall|k: int|
            i <= k < ms.len() ==> (#[trigger] json_members_spec(st, ms, i, acc).1[acc.len() + (k - i)]).0
                == ms[k].0 && hal_to_json_spec(
                st2,
                json_members_spec(st, ms, i, acc).1[acc.len() + (k - i)].1,
                d,
            ) == Some(json_stored(ms[k].1)),
    decreases ms, ms.len() - i,
{
    if i < ms.len() {
        let (st1, v) = json_value_spec(st, ms[i].1);
        let rest = json_members_spec(st1, ms, i + 1, acc.push((ms[i].0, v)));
        lemma_members_grows(st1, ms, i + 1, acc.push((ms[i].0, v)));
        lemma_members_read(st1, ms, i + 1, acc.push((ms[i].0, v)), st2, d);
        assert(rest.0 == json_members_spec(st, ms, i, acc).0);
        lemma_value_reads_back(st, ms[i].1, st2, d);
        assert(rest.1.subrange(0, acc.len() + 1int)[acc.len() as int] == (ms[i].0, v));
        assert forall|k: int| i <= k < ms.len() implies (#[trigger] json_members_spec(st, ms, i, acc).1[acc.len()
            + (k - i)]).0 == ms[k].0 && hal_to_json_spec(
            st2,
            json_members_spec(st, ms, i, acc).1[acc.len() + (k - i)].1,
            d,
        ) == Some(json_stored(ms[k].1)) by {
            if k > i {
                assert(acc.push((ms[i].0, v)).len() + (k - (i + 1)) == acc.len() + (k - i));
            }
        }
    }
}

/// Reading back a stored JSON value, in that state or any later one, gives
/// the JSON it was stored from, with `true` as the number 1 and `false` as
/// `null`, when enough levels are read.
pub proof fn law_json_reads_back(st: RtView, j: JsonView, st2: RtView, d: nat)
    requires
        store_grows(json_value_spec(st, j).0, st2),
        store_fits(st2),
        json_fits(j, d),
    ensures
        hal_to_json_spec(st2, json_value_spec(st, j).1, d) == Some(json_stored(j)),
{
    lemma_value_reads_back(st, j, st2, d);
}

} // verus!
