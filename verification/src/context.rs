//! The state of one generation: tags, bindings and the frames of the scopes
//! that are open.

use vstd::prelude::*;
use crate::dict::{compatible, StrMap};
use crate::group::Group;

verus! {

/// What a generation carries along: the tags of the groups chosen so far,
/// the bindings, and for each open scope the names bound in it.
#[derive(Clone, Debug)]
pub struct Context {
    pub tags: StrMap<String>,
    bindings: StrMap<String>,
    unpop: Vec<Vec<String>>,
}

/// A [`Context`] as maps and sequences. The last frame is the innermost
/// scope.
pub struct ContextView {
    pub tags: Map<Seq<char>, Seq<char>>,
    pub bindings: Map<Seq<char>, Seq<char>>,
    pub frames: Seq<Seq<Seq<char>>>,
}

impl ContextView {
    /// A context without tags, bindings and frames.
    pub open spec fn fresh() -> ContextView {
        ContextView {
            tags: Map::<Seq<char>, Seq<char>>::empty(),
            bindings: Map::<Seq<char>, Seq<char>>::empty(),
            frames: Seq::<Seq<Seq<char>>>::empty(),
        }
    }

    /// This context with a new, empty frame on top.
    pub open spec fn descend(self) -> ContextView {
        ContextView { frames: self.frames.push(Seq::<Seq<char>>::empty()), ..self }
    }

    /// This context without its top frame and without the bindings of the
    /// names noted in that frame. Without a frame, this context.
    pub open spec fn ascend(self) -> ContextView {
        if self.frames.len() == 0 {
            self
        } else {
            ContextView {
                bindings: self.bindings.remove_keys(self.frames.last().to_set()),
                frames: self.frames.drop_last(),
                ..self
            }
        }
    }

    /// This context with `key` bound to `value`, and `key` noted in the top
    /// frame where there is one.
    pub open spec fn bind(self, key: Seq<char>, value: Seq<char>) -> ContextView {
        ContextView {
            bindings: self.bindings.insert(key, value),
            frames: if self.frames.len() == 0 {
                self.frames
            } else {
                self.frames.update(self.frames.len() - 1, self.frames.last().push(key))
            },
            ..self
        }
    }

    /// This context without a binding for `key`.
    pub open spec fn unbind(self, key: Seq<char>) -> ContextView {
        ContextView { bindings: self.bindings.remove(key), ..self }
    }

    /// This context with the tag `key` set to `value`.
    pub open spec fn set(self, key: Seq<char>, value: Seq<char>) -> ContextView {
        ContextView { tags: self.tags.insert(key, value), ..self }
    }

    /// This context with every tag of `tags` set.
    pub open spec fn merge(self, tags: Map<Seq<char>, Seq<char>>) -> ContextView {
        ContextView { tags: self.tags.union_prefer_right(tags), ..self }
    }

    /// Whether a group with the tags `tags` may be chosen in this context:
    /// every tag that both carry has the same value in both.
    pub open spec fn accepts(self, tags: Map<Seq<char>, Seq<char>>) -> bool {
        compatible(self.tags, tags)
    }
}

/// The texts of a list of lists of strings.
pub open spec fn frame_views(frames: Seq<Vec<String>>) -> Seq<Seq<Seq<char>>> {
    Seq::new(frames.len(), |i: int| crate::dict::texts(frames[i]@))
}

impl View for Context {
    type V = ContextView;

    closed spec fn view(&self) -> ContextView {
        ContextView {
            tags: self.tags@,
            bindings: self.bindings@,
            frames: frame_views(self.unpop@),
        }
    }
}

impl Default for Context {
    fn default() -> (c: Self)
        ensures
            c@ == ContextView::fresh(),
    {
        Context::new(StrMap::new(), StrMap::new())
    }
}

impl Context {
    /// A context with the given tags and bindings, and no frame.
    pub fn new(tags: StrMap<String>, bindings: StrMap<String>) -> (c: Self)
        ensures
            c@ == (ContextView {
                tags: tags@,
                bindings: bindings@,
                frames: Seq::<Seq<Seq<char>>>::empty(),
            }),
    {
        let c = Context { tags, bindings, unpop: Vec::new() };
        assert(frame_views(c.unpop@) =~= Seq::<Seq<Seq<char>>>::empty());
        c
    }

    /// A context with the given tags and nothing else.
    pub fn with_tags(tags: StrMap<String>) -> (c: Self)
        ensures
            c@ == (ContextView { tags: tags@, ..ContextView::fresh() }),
    {
        Context::new(tags, StrMap::new())
    }

    /// A context with the given bindings and nothing else.
    pub fn with_bindings(bindings: StrMap<String>) -> (c: Self)
        ensures
            c@ == (ContextView { bindings: bindings@, ..ContextView::fresh() }),
    {
        Context::new(StrMap::new(), bindings)
    }

    /// The tags of the context.
    pub fn tags(&self) -> (r: &StrMap<String>)
        ensures
            r@ == self@.tags,
    {
        &self.tags
    }

    /// Opens a scope: puts an empty frame on top.
    pub fn descend(&mut self)
        ensures
            final(self)@ == old(self)@.descend(),
    {
        self.unpop.push(Vec::new());
        proof {
            assert(crate::dict::texts(Seq::<String>::empty()) =~= Seq::<Seq<char>>::empty());
            assert(frame_views(self.unpop@) =~= frame_views(old(self).unpop@).push(
                Seq::<Seq<char>>::empty(),
            ));
        }
    }

    /// Closes the innermost scope: takes the top frame off and removes the
    /// binding of every name noted in it. Without a frame, nothing changes.
    pub fn ascend(&mut self)
        ensures
            final(self)@ == old(self)@.ascend(),
    {
        let ghost before = self@;
        match self.unpop.pop() {
            Some(frame) => {
                let ghost names = crate::dict::texts(frame@);
                proof {
                    assert(frame_views(self.unpop@) =~= before.frames.drop_last());
                    assert(names == before.frames.last());
                    assert(names.take(0).to_set() =~= Set::<Seq<char>>::empty());
                    assert(before.bindings.remove_keys(Set::<Seq<char>>::empty())
                        =~= before.bindings);
                }
                let mut i: usize = 0;
                while i < frame.len()
                    invariant
                        i <= frame@.len(),
                        names == crate::dict::texts(frame@),
                        self.tags@ == before.tags,
                        frame_views(self.unpop@) == before.frames.drop_last(),
                        self.bindings@ == before.bindings.remove_keys(
                            names.take(i as int).to_set(),
                        ),
                    decreases frame@.len() - i,
                {
                    let ghost done = names.take(i as int).to_set();
                    self.bindings.remove(frame[i].as_str());
                    proof {
                        let key = names[i as int];
                        let longer = names.take(i + 1);
                        let shorter = names.take(i as int);
                        assert forall|k: Seq<char>| longer.to_set().contains(k) <==> done.insert(
                            key,
                        ).contains(k) by {
                            if longer.contains(k) {
                                let j = choose|j: int| 0 <= j < longer.len() && #[trigger] longer[j] == k;
                                if j < i {
                                    assert(shorter[j] == k);
                                }
                            }
                            if shorter.contains(k) {
                                let j = choose|j: int|
                                    0 <= j < shorter.len() && #[trigger] shorter[j] == k;
                                assert(longer[j] == k);
                            }
                            if k == key {
                                assert(longer[i as int] == k);
                            }
                        }
                        assert(longer.to_set() =~= done.insert(key));
                        assert(before.bindings.remove_keys(done).remove(key)
                            =~= before.bindings.remove_keys(done.insert(key)));
                    }
                    i += 1;
                }
                proof {
                    assert(names.take(frame@.len() as int) == names);
                }
            },
            None => {
                proof {
                    assert(frame_views(self.unpop@) =~= before.frames);
                }
            },
        }
    }

    /// Sets every tag of `group` in this context.
    pub fn merge_from_group(&mut self, group: &Group)
        ensures
            final(self)@ == old(self)@.merge(group@.tags),
    {
        self.tags.absorb(&group.tags);
    }

    /// Sets the tag `key` to `value`.
    pub fn set(&mut self, key: &str, value: &str)
        ensures
            final(self)@ == old(self)@.set(key@, value@),
    {
        self.tags.insert(key.to_owned(), value.to_owned());
    }

    /// Binds `key` to `value`, and notes `key` in the top frame where there
    /// is one.
    pub fn bind(&mut self, key: &str, value: &str)
        ensures
            final(self)@ == old(self)@.bind(key@, value@),
    {
        let ghost before = self@;
        self.bindings.insert(key.to_owned(), value.to_owned());
        let n = self.unpop.len();
        if n > 0 {
            let ghost frames = self.unpop@;
            let mut frame: Vec<String> = Vec::new();
            std::mem::swap(&mut frame, &mut self.unpop[n - 1]);
            frame.push(key.to_owned());
            proof {
                assert(crate::dict::texts(frame@) =~= before.frames.last().push(key@));
            }
            std::mem::swap(&mut frame, &mut self.unpop[n - 1]);
            proof {
                assert(frame_views(self.unpop@) =~= before.frames.update(
                    n - 1,
                    before.frames.last().push(key@),
                ));
            }
        } else {
            proof {
                assert(frame_views(self.unpop@) =~= before.frames);
            }
        }
    }

    /// Removes the binding of `key`.
    pub fn unbind(&mut self, key: &str)
        ensures
            final(self)@ == old(self)@.unbind(key@),
    {
        self.bindings.remove(key);
    }

    /// The value that `key` is bound to.
    pub fn get_binding(&mut self, key: &str) -> (r: Option<String>)
        ensures
            final(self)@ == old(self)@,
            match r {
                Some(value) => old(self)@.bindings.contains_key(key@) && value@ == old(
                    self,
                )@.bindings[key@],
                None => !old(self)@.bindings.contains_key(key@),
            },
    {
        self.bindings.lookup(key)
    }

    /// Whether the context carries a tag.
    pub fn has_tags(&self) -> (b: bool)
        ensures
            b == (self@.tags != Map::<Seq<char>, Seq<char>>::empty()),
    {
        !self.tags.is_empty()
    }

    /// Whether `group` may be chosen in this context: every tag that the
    /// group and the context both carry has the same value in both.
    pub fn accept_strict(&self, group: &Group) -> (b: bool)
        ensures
            b == self@.accepts(group@.tags),
    {
        self.tags.agrees_with(&group.tags)
    }

    /// Whether `group` may be chosen in this context. The rule is that of
    /// [`Context::accept_strict`]; where the context or the group carries no
    /// tag, no tag constrains, and the answer is found without comparing.
    pub fn accept(&self, group: &Group) -> (b: bool)
        ensures
            b == self@.accepts(group@.tags),
    {
        if self.tags.is_empty() || group.tags.is_empty() {
            return true;
        }
        self.tags.agrees_with(&group.tags)
    }
}

} // verus!
