//! Lexical environments: an arena of frames, each with an optional parent.
use vstd::prelude::*;
use crate::object::{Object, Value, BuiltinFunction};

verus! {

/// The view of an environment: every binding ever made, as (frame, name,
/// value) in the order made, and the parent of each frame.
pub struct EnvView {
    pub bindings: Seq<(nat, Seq<char>, Value)>,
    pub parents: Seq<Option<nat>>,
}

/// The value most recently bound to `name` in frame `f`.
pub open spec fn find_in(b: Seq<(nat, Seq<char>, Value)>, f: nat, name: Seq<char>) -> Option<Value>
    decreases b.len(),
{
    if b.len() == 0 {
        None
    } else if b.last().0 == f && b.last().1 == name {
        Some(b.last().2)
    } else {
        find_in(b.drop_last(), f, name)
    }
}

/// What `name` means in frame `f`: its binding there, else its meaning in the
/// parent frame. A parent link that does not point to an earlier frame ends
/// the search.
pub open spec fn lookup(env: EnvView, f: nat, name: Seq<char>) -> Option<Value>
    decreases f,
{
    if f >= env.parents.len() {
        None
    } else {
        match find_in(env.bindings, f, name) {
            Some(v) => Some(v),
            None => match env.parents[f as int] {
                Some(o) => if o < f {
                    lookup(env, o, name)
                } else {
                    None
                },
                None => None,
            },
        }
    }
}

/// The environment that evaluation starts from: one root frame holding the
/// built-in functions.
pub open spec fn root_env() -> EnvView {
    EnvView {
        bindings: seq![
            (0nat, "len"@, Value::Builtin(BuiltinFunction::Len)),
            (0nat, "head"@, Value::Builtin(BuiltinFunction::Head)),
            (0nat, "tail"@, Value::Builtin(BuiltinFunction::Tail)),
            (0nat, "cons"@, Value::Builtin(BuiltinFunction::Cons)),
        ],
        parents: seq![None],
    }
}

/// An arena of frames. Frame 0 is the root.
pub struct Environment {
    bindings: Vec<(usize, String, Object)>,
    parents: Vec<Option<usize>>,
}

pub open spec fn view_binding(b: (usize, String, Object)) -> (nat, Seq<char>, Value) {
    (b.0 as nat, b.1@, b.2@)
}

pub open spec fn view_parent(p: Option<usize>) -> Option<nat> {
    match p {
        Some(o) => Some(o as nat),
        None => None,
    }
}

impl View for Environment {
    type V = EnvView;

    closed spec fn view(&self) -> EnvView {
        EnvView {
            bindings: self.bindings@.map_values(|b: (usize, String, Object)| view_binding(b)),
            parents: self.parents@.map_values(|p: Option<usize>| view_parent(p)),
        }
    }
}

impl Environment {
    /// A fresh environment: the root frame with the built-in functions.
    pub fn new() -> (r: Self)
        ensures
            r@ == root_env(),
    {
        let mut env = Environment { bindings: Vec::new(), parents: Vec::new() };
        env.parents.push(None);
        env.fill_env_with_builtins();
        assert(env@.bindings =~= root_env().bindings);
        assert(env@.parents =~= root_env().parents);
        env
    }

    fn fill_env_with_builtins(&mut self)
        requires
            old(self).bindings@.len() == 0,
        ensures
            final(self).parents == old(self).parents,
            final(self)@.bindings =~= root_env().bindings,
    {
        self.bindings.push((0, "len".to_owned(), Object::Builtin(BuiltinFunction::Len)));
        self.bindings.push((0, "head".to_owned(), Object::Builtin(BuiltinFunction::Head)));
        self.bindings.push((0, "tail".to_owned(), Object::Builtin(BuiltinFunction::Tail)));
        self.bindings.push((0, "cons".to_owned(), Object::Builtin(BuiltinFunction::Cons)));
    }

    /// The number of frames.
    pub fn frame_count(&self) -> (r: usize)
        ensures
            r == self@.parents.len(),
    {
        self.parents.len()
    }

    /// Adds a frame whose parent is `outer` and returns its number.
    pub fn new_with_outer(&mut self, outer: usize) -> (r: usize)
        ensures
            r == old(self)@.parents.len(),
            final(self)@ == (EnvView {
                bindings: old(self)@.bindings,
                parents: old(self)@.parents.push(Some(outer as nat)),
            }),
    {
        let r = self.parents.len();
        self.parents.push(Some(outer));
        assert(self@.parents =~= old(self)@.parents.push(Some(outer as nat)));
        r
    }

    /// Binds `name` to `val` in frame `frame`.
    pub fn set(&mut self, frame: usize, name: &str, val: Object)
        ensures
            final(self)@ == (EnvView {
                bindings: old(self)@.bindings.push((frame as nat, name@, val@)),
                parents: old(self)@.parents,
            }),
    {
        self.bindings.push((frame, name.to_owned(), val));
        assert(self@.bindings =~= old(self)@.bindings.push((frame as nat, name@, val@)));
    }

    /// What `name` means in frame `frame`.
    pub fn get(&self, frame: usize, name: &str) -> (r: Option<Object>)
        ensures
            match r {
                Some(o) => lookup(self@, frame as nat, name@) == Some(o@),
                None => lookup(self@, frame as nat, name@) is None,
            },
    {
        let key = name.to_owned();
        let mut f = frame;
        loop
            invariant
                key@ == name@,
                lookup(self@, frame as nat, name@) == lookup(self@, f as nat, name@),
            decreases f,
        {
            if f >= self.parents.len() {
                return None;
            }
            let mut j = self.bindings.len();
            assert(self@.bindings.subrange(0, j as int) =~= self@.bindings);
            while j > 0
                invariant
                    j <= self.bindings@.len(),
                    f < self@.parents.len(),
                    key@ == name@,
                    lookup(self@, frame as nat, name@) == lookup(self@, f as nat, name@),
                    find_in(self@.bindings, f as nat, name@) == find_in(
                        self@.bindings.subrange(0, j as int),
                        f as nat,
                        name@,
                    ),
                decreases j,
            {
                let ghost sub = self@.bindings.subrange(0, j as int);
                assert(sub.drop_last() =~= self@.bindings.subrange(0, j - 1));
                assert(sub.last() == view_binding(self.bindings@[j - 1]));
                if self.bindings[j - 1].0 == f && self.bindings[j - 1].1 == key {
                    return Some(self.bindings[j - 1].2.copy());
                }
                j = j - 1;
            }
            match self.parents[f] {
                Some(o) => {
                    if o < f {
                        f = o;
                    } else {
                        return None;
                    }
                },
                None => {
                    return None;
                },
            }
        }
    }
}

} // verus!
