//! Variable scopes: frames of named values, each falling back to the frame it
//! was opened in. A name is looked up in a frame, then in the frame's parent,
//! and so on; a value is always set in the frame itself.
use vstd::prelude::*;
use crate::text::text_eq;

verus! {

/// The frames as plain values: each frame's variables and its parent frame.
pub type FramesView<V> = Seq<(Map<Seq<char>, V>, Option<nat>)>;

/// The value `name` has when looked up from frame `id`: the frame's own
/// variable, else the one its parent sees.
pub open spec fn lookup_in<V>(frames: FramesView<V>, id: int, name: Seq<char>) -> Option<V>
    decreases id,
{
    if 0 <= id < frames.len() {
        if frames[id].0.contains_key(name) {
            Some(frames[id].0[name])
        } else {
            match frames[id].1 {
                Some(p) => if p < id {
                    lookup_in(frames, p as int, name)
                } else {
                    None
                },
                None => None,
            }
        }
    } else {
        None
    }
}

/// The frames after setting `name` to `v` in frame `id`.
pub open spec fn set_in<V>(frames: FramesView<V>, id: int, name: Seq<char>, v: V) -> FramesView<V> {
    frames.update(id, (frames[id].0.insert(name, v), frames[id].1))
}

/// Whether every frame falls back only to a frame opened before it.
pub open spec fn parents_older<V>(frames: FramesView<V>) -> bool {
    forall|i: int| 0 <= i < frames.len() ==> ((#[trigger] frames[i]).1 matches Some(p) ==> p < i)
}

/// The variables of frame `f` among the entries `es`.
pub open spec fn frame_map<V>(es: Seq<(usize, String, V)>, f: int) -> Map<Seq<char>, V>
    decreases es.len(),
{
    if es.len() == 0 {
        Map::empty()
    } else {
        let m = frame_map(es.drop_last(), f);
        let e = es.last();
        if e.0 == f {
            m.insert(e.1@, e.2)
        } else {
            m
        }
    }
}

/// Whether no frame holds a name twice.
pub open spec fn entries_unique<V>(es: Seq<(usize, String, V)>) -> bool {
    forall|i: int, j: int|
        0 <= i < j < es.len() ==> !((#[trigger] es[i]).0 == (#[trigger] es[j]).0 && es[i].1@
            == es[j].1@)
}

proof fn lemma_frame_map<V>(es: Seq<(usize, String, V)>, f: int)
    requires
        entries_unique(es),
    ensures
        forall|i: int|
            0 <= i < es.len() && (#[trigger] es[i]).0 == f ==> frame_map(es, f).contains_key(
                es[i].1@,
            ) && frame_map(es, f)[es[i].1@] == es[i].2,
        forall|k: Seq<char>|
            #[trigger] frame_map(es, f).contains_key(k) ==> exists|i: int|
                0 <= i < es.len() && (#[trigger] es[i]).0 == f && es[i].1@ == k,
    decreases es.len(),
{
    if es.len() > 0 {
        let init = es.drop_last();
        assert forall|i: int, j: int| 0 <= i < j < init.len() implies !((#[trigger] init[i]).0
            == (#[trigger] init[j]).0 && init[i].1@ == init[j].1@) by {
            assert(init[i] == es[i] && init[j] == es[j]);
        }
        lemma_frame_map(init, f);
        let last = es.len() - 1;
        assert forall|i: int|
            0 <= i < es.len() && (#[trigger] es[i]).0 == f implies frame_map(es, f).contains_key(
            es[i].1@,
        ) && frame_map(es, f)[es[i].1@] == es[i].2 by {
            if i < last {
                assert(init[i] == es[i]);
                if es[last].0 == f {
                    assert(es[i].1@ != es[last].1@);
                }
            }
        }
        assert forall|k: Seq<char>| #[trigger] frame_map(es, f).contains_key(k) implies exists|i: int|
            0 <= i < es.len() && (#[trigger] es[i]).0 == f && es[i].1@ == k by {
            if es[last].0 == f && es[last].1@ == k {
                assert(es[last].0 == f);
            } else {
                assert(frame_map(init, f).contains_key(k));
                let i = choose|i: int| 0 <= i < init.len() && (#[trigger] init[i]).0 == f && init[i].1@ == k;
                assert(init[i] == es[i]);
            }
        }
    }
}

/// Frames of variables, each with an optional parent frame opened before it.
pub struct Scopes<V> {
    entries: Vec<(usize, String, V)>,
    parents: Vec<Option<usize>>,
}

impl<V> Scopes<V> {
    /// The frames: each one's variables and parent.
    pub closed spec fn frames(&self) -> FramesView<V> {
        Seq::new(
            self.parents@.len(),
            |i: int|
                (
                    frame_map(self.entries@, i),
                    match self.parents@[i] {
                        Some(p) => Some(p as nat),
                        None => None,
                    },
                ),
        )
    }

    /// The internal invariant: entries belong to existing frames, no frame
    /// holds a name twice, and parents are older than their children.
    closed spec fn wf(&self) -> bool {
        &&& forall|i: int| 0 <= i < self.entries@.len() ==> (#[trigger] self.entries@[i]).0 < self.parents@.len()
        &&& entries_unique(self.entries@)
        &&& forall|i: int| 0 <= i < self.parents@.len() ==> ((#[trigger] self.parents@[i]) matches Some(p) ==> p < i)
    }

    #[verifier::type_invariant]
    closed spec fn inv(self) -> bool {
        self.wf()
    }

    proof fn lemma_wf(&self)
        requires
            self.wf(),
        ensures
            parents_older(self.frames()),
            forall|i: int|
                0 <= i < self.entries@.len() ==> #[trigger] self.frames()[self.entries@[i].0 as int].0.contains_key(
                    self.entries@[i].1@,
                ) && self.frames()[self.entries@[i].0 as int].0[self.entries@[i].1@] == self.entries@[i].2,
    {
        assert forall|f: int| 0 <= f < self.frames().len() implies #[trigger] self.frames()[f].0 == frame_map(self.entries@, f) by {}
        assert forall|i: int|
            0 <= i < self.entries@.len() implies #[trigger] self.frames()[self.entries@[i].0 as int].0.contains_key(
            self.entries@[i].1@,
        ) && self.frames()[self.entries@[i].0 as int].0[self.entries@[i].1@] == self.entries@[i].2 by {
            lemma_frame_map(self.entries@, self.entries@[i].0 as int);
        }
    }

    /// No frames yet.
    pub fn new() -> (r: Self)
        ensures
            r.frames() == FramesView::<V>::empty(),
    {
        let r = Scopes { entries: Vec::new(), parents: Vec::new() };
        assert(r.frames() =~= FramesView::<V>::empty());
        r
    }

    /// The number of frames.
    pub fn frame_count(&self) -> (r: usize)
        ensures
            r == self.frames().len(),
    {
        self.parents.len()
    }

    /// Opens an empty frame that falls back to `parent`; gives its index.
    pub fn open_frame(&mut self, parent: Option<usize>) -> (r: usize)
        requires
            parent matches Some(p) ==> p < old(self).frames().len(),
        ensures
            r == old(self).frames().len(),
            final(self).frames() == old(self).frames().push(
                (
                    Map::<Seq<char>, V>::empty(),
                    match parent {
                        Some(p) => Some(p as nat),
                        None => None,
                    },
                ),
            ),
    {
        proof {
            use_type_invariant(&*self);
        }
        let ghost old_es = self.entries@;
        let r = self.parents.len();
        let mut es: Vec<(usize, String, V)> = Vec::new();
        core::mem::swap(&mut es, &mut self.entries);
        let mut ps: Vec<Option<usize>> = Vec::new();
        core::mem::swap(&mut ps, &mut self.parents);
        ps.push(parent);
        core::mem::swap(&mut ps, &mut self.parents);
        core::mem::swap(&mut es, &mut self.entries);
        proof {
            lemma_frame_map(self.entries@, r as int);
            assert(frame_map(self.entries@, r as int) =~= Map::<Seq<char>, V>::empty()) by {
                assert forall|k: Seq<char>| !frame_map(self.entries@, r as int).contains_key(k) by {
                    if frame_map(self.entries@, r as int).contains_key(k) {
                        let i = choose|i: int| 0 <= i < self.entries@.len() && (#[trigger] self.entries@[i]).0 == r && self.entries@[i].1@ == k;
                        assert(self.entries@[i].0 < r);
                    }
                }
            }
            assert(self.frames() =~= old(self).frames().push(
                (
                    Map::<Seq<char>, V>::empty(),
                    match parent {
                        Some(p) => Some(p as nat),
                        None => None,
                    },
                ),
            ));
        }
        r
    }

    /// The index of the entry of `name` in frame `id`, if any.
    fn find(&self, id: usize, name: &str) -> (r: Option<usize>)
        requires
            self.wf(),
            id < self.frames().len(),
        ensures
            match r {
                Some(i) => i < self.entries@.len() && self.entries@[i as int].0 == id
                    && self.entries@[i as int].1@ == name@,
                None => !self.frames()[id as int].0.contains_key(name@),
            },
    {
        let mut i: usize = 0;
        while i < self.entries.len()
            invariant
                self.wf(),
                i <= self.entries@.len(),
                forall|j: int|
                    0 <= j < i ==> !((#[trigger] self.entries@[j]).0 == id && self.entries@[j].1@
                        == name@),
            decreases self.entries.len() - i,
        {
            if self.entries[i].0 == id && text_eq(self.entries[i].1.as_str(), name) {
                return Some(i);
            }
            i = i + 1;
        }
        proof {
            lemma_frame_map(self.entries@, id as int);
            assert(self.frames()[id as int].0 == frame_map(self.entries@, id as int));
        }
        None
    }

    /// The value of `name` seen from frame `id`: the frame's own, else its
    /// parent's, and so on.
    pub fn get(&self, id: usize, name: &str) -> (r: Option<&V>)
        ensures
            match r {
                Some(v) => lookup_in(self.frames(), id as int, name@) == Some(*v),
                None => lookup_in(self.frames(), id as int, name@) is None,
            },
    {
        proof {
            use_type_invariant(self);
            self.lemma_wf();
        }
        if id >= self.parents.len() {
            return None;
        }
        let mut cur = id;
        loop
            invariant
                self.wf(),
                parents_older(self.frames()),
                cur < self.frames().len(),
                lookup_in(self.frames(), id as int, name@) == lookup_in(self.frames(), cur as int, name@),
            decreases cur,
        {
            match self.find(cur, name) {
                Some(i) => {
                    proof {
                        self.lemma_wf();
                        assert(self.frames()[cur as int].0.contains_key(name@));
                    }
                    return Some(&self.entries[i].2);
                },
                None => {},
            }
            assert(self.frames()[cur as int].1 == match self.parents@[cur as int] {
                Some(p) => Some(p as nat),
                None => None::<nat>,
            });
            match self.parents[cur] {
                Some(p) => {
                    cur = p;
                },
                None => {
                    return None;
                },
            }
        }
    }

    /// Whether `name` has a value seen from frame `id`.
    pub fn has(&self, id: usize, name: &str) -> (r: bool)
        ensures
            r == lookup_in(self.frames(), id as int, name@) is Some,
    {
        self.get(id, name).is_some()
    }

    /// Sets `name` to `v` in frame `id` itself.
    pub fn set(&mut self, id: usize, name: String, v: V)
        requires
            id < old(self).frames().len(),
        ensures
            final(self).frames() == set_in(old(self).frames(), id as int, name@, v),
    {
        proof {
            use_type_invariant(&*self);
        }
        let ghost old_es = self.entries@;
        let ghost nv = name@;
        proof {
            lemma_frame_map(old_es, id as int);
        }
        let ghost mut at: int = 0;
        let found = self.find(id, name.as_str());
        let mut es: Vec<(usize, String, V)> = Vec::new();
        core::mem::swap(&mut es, &mut self.entries);
        match found {
            Some(i) => {
                es.set(i, (id, name, v));
                proof {
                    at = i as int;
                }
                proof {
                    let es = es@;
                    assert forall|a: int, b: int| 0 <= a < b < es.len() implies !((#[trigger] es[a]).0
                        == (#[trigger] es[b]).0 && es[a].1@ == es[b].1@) by {
                        assert(old_es[a].0 == es[a].0 && old_es[a].1@ == es[a].1@);
                        assert(old_es[b].0 == es[b].0 && old_es[b].1@ == es[b].1@);
                    }
                }
            },
            None => {
                es.push((id, name, v));
                proof {
                    at = old_es.len() as int;
                    let es = es@;
                    assert forall|a: int, b: int| 0 <= a < b < es.len() implies !((#[trigger] es[a]).0
                        == (#[trigger] es[b]).0 && es[a].1@ == es[b].1@) by {
                        if b == es.len() - 1 {
                            assert(es[a] == old_es[a]);
                            if es[a].0 == id && es[a].1@ == nv {
                                lemma_frame_map(old_es, id as int);
                            }
                        } else {
                            assert(es[a] == old_es[a] && es[b] == old_es[b]);
                        }
                    }
                }
            },
        }
        proof {
            let es = es@;
            assert forall|i: int| 0 <= i < es.len() implies (#[trigger] es[i]).0 < self.parents@.len() by {
                if i != at {
                    assert(es[i] == old_es[i]);
                }
            }
        }
        core::mem::swap(&mut es, &mut self.entries);
        proof {
            let es = self.entries@;
            assert(0 <= at < es.len() && es[at].0 == id && es[at].1@ == nv && es[at].2 == v);
            assert(at < old_es.len() ==> old_es[at].0 == id && old_es[at].1@ == nv);
            assert(es.len() == old_es.len() || (es.len() == old_es.len() + 1 && at == old_es.len()));
            assert(forall|j: int| 0 <= j < old_es.len() && j != at ==> es[j] == old_es[j]);
            lemma_frame_map(es, id as int);
            lemma_frame_map(old_es, id as int);
            let target = set_in(old(self).frames(), id as int, nv, v);
            assert forall|f: int| 0 <= f < self.frames().len() implies #[trigger] self.frames()[f] == target[f] by {
                lemma_frame_map(es, f);
                lemma_frame_map(old_es, f);
                let m_new = frame_map(es, f);
                let m_old = frame_map(old_es, f);
                if f == id {
                    assert forall|k: Seq<char>| #[trigger] m_new.contains_key(k) == m_old.insert(nv, v).contains_key(k) by {
                        if m_new.contains_key(k) {
                            let i = choose|i: int| 0 <= i < es.len() && (#[trigger] es[i]).0 == f && es[i].1@ == k;
                            if k != nv {
                                assert(i != at);
                                assert(i < old_es.len() && old_es[i] == es[i]);
                            }
                        }
                        if k == nv {
                            assert(es[at].0 == f);
                        }
                        if m_old.contains_key(k) && k != nv {
                            let i = choose|i: int| 0 <= i < old_es.len() && (#[trigger] old_es[i]).0 == f && old_es[i].1@ == k;
                            assert(es[i] == old_es[i]);
                        }
                    }
                    assert forall|k: Seq<char>| #[trigger] m_new.contains_key(k) implies m_new[k] == m_old.insert(nv, v)[k] by {
                        let i = choose|i: int| 0 <= i < es.len() && (#[trigger] es[i]).0 == f && es[i].1@ == k;
                        if k != nv {
                            assert(i < old_es.len() && old_es[i] == es[i]);
                        }
                    }
                    assert(m_new =~= m_old.insert(nv, v));
                } else {
                    assert forall|k: Seq<char>| #[trigger] m_new.contains_key(k) == m_old.contains_key(k) by {
                        if m_new.contains_key(k) {
                            let i = choose|i: int| 0 <= i < es.len() && (#[trigger] es[i]).0 == f && es[i].1@ == k;
                            assert(i < old_es.len() && old_es[i] == es[i]);
                        }
                        if m_old.contains_key(k) {
                            let i = choose|i: int| 0 <= i < old_es.len() && (#[trigger] old_es[i]).0 == f && old_es[i].1@ == k;
                            assert(es[i] == old_es[i]);
                        }
                    }
                    assert forall|k: Seq<char>| #[trigger] m_new.contains_key(k) implies m_new[k] == m_old[k] by {
                        let i = choose|i: int| 0 <= i < es.len() && (#[trigger] es[i]).0 == f && es[i].1@ == k;
                        assert(i < old_es.len() && old_es[i] == es[i]);
                    }
                    assert(m_new =~= m_old);
                }
            }
            assert(self.frames() =~= target);
        }
    }
}

/// What a read gives back of a write: after `name` is set to `v` in frame
/// `id`, looking `name` up from that frame gives `v`.
pub proof fn law_get_after_set<V>(frames: FramesView<V>, id: int, name: Seq<char>, v: V)
    requires
        0 <= id < frames.len(),
    ensures
        lookup_in(set_in(frames, id, name, v), id, name) == Some(v),
{
}

/// Setting `name` leaves every other name as it was, from every frame.
pub proof fn law_set_keeps_other_names<V>(
    frames: FramesView<V>,
    id: int,
    name: Seq<char>,
    v: V,
    from: int,
    other: Seq<char>,
)
    requires
        0 <= id < frames.len(),
        other != name,
    ensures
        lookup_in(set_in(frames, id, name, v), from, other) == lookup_in(frames, from, other),
    decreases from,
{
    let s = set_in(frames, id, name, v);
    if 0 <= from < frames.len() {
        assert(s[from].0.contains_key(other) == frames[from].0.contains_key(other));
        if !frames[from].0.contains_key(other) {
            if let Some(p) = frames[from].1 {
                if p < from {
                    law_set_keeps_other_names(frames, id, name, v, p as int, other);
                }
            }
        }
    }
}

/// Setting a variable in a frame changes nothing that an older frame sees:
/// the scopes a task was defined in are not touched by its own variables.
pub proof fn law_set_invisible_to_older<V>(
    frames: FramesView<V>,
    id: int,
    name: Seq<char>,
    v: V,
    from: int,
    key: Seq<char>,
)
    requires
        0 <= id < frames.len(),
        from < id,
    ensures
        lookup_in(set_in(frames, id, name, v), from, key) == lookup_in(frames, from, key),
    decreases from,
{
    let s = set_in(frames, id, name, v);
    if 0 <= from < frames.len() {
        assert(s[from] == frames[from]);
        if !frames[from].0.contains_key(key) {
            if let Some(p) = frames[from].1 {
                if p < from {
                    law_set_invisible_to_older(frames, id, name, v, p as int, key);
                }
            }
        }
    }
}

/// A frame's own variable hides the same name in the frames it falls back to.
pub proof fn law_own_variable_shadows<V>(frames: FramesView<V>, id: int, name: Seq<char>)
    requires
        0 <= id < frames.len(),
        frames[id].0.contains_key(name),
    ensures
        lookup_in(frames, id, name) == Some(frames[id].0[name]),
{
}

} // verus!
