//! Keyboard state of the chase game: the set of keys held down, each kept
//! under its lower-case name so that `A` and `a` are the same key.
use vstd::prelude::*;
use crate::keys::{lowercase, lowercase_of, KeySet};

verus! {

pub struct Input {
    pressed: KeySet,
}

impl Input {
    pub closed spec fn wf(self) -> bool {
        self.pressed.wf()
    }

    /// The lower-case names of the keys held down.
    pub closed spec fn held(self) -> Set<Seq<char>> {
        self.pressed@
    }

    pub fn new() -> (r: Input)
        ensures
            r.wf(),
            r.held() == Set::<Seq<char>>::empty(),
    {
        Input { pressed: KeySet::new() }
    }

    pub fn normalize(key: &str) -> (r: String)
        ensures
            r@ == lowercase_of(key@),
    {
        lowercase(key)
    }

    pub fn press(&mut self, key: String)
        requires
            old(self).wf(),
        ensures
            final(self).wf(),
            final(self).held() == old(self).held().insert(lowercase_of(key@)),
    {
        let name = Self::normalize(key.as_str());
        self.pressed.insert(name);
    }

    pub fn release(&mut self, key: &str)
        requires
            old(self).wf(),
        ensures
            final(self).wf(),
            final(self).held() == old(self).held().remove(lowercase_of(key@)),
    {
        let name = Self::normalize(key);
        self.pressed.remove(&name);
    }

    pub fn is_pressed(&self, key: &str) -> (r: bool)
        ensures
            r == self.held().contains(lowercase_of(key@)),
    {
        let name = Self::normalize(key);
        self.pressed.contains(&name)
    }
}

impl Default for Input {
    fn default() -> (r: Input)
        ensures
            r.wf(),
            r.held() == Set::<Seq<char>>::empty(),
    {
        Input::new()
    }
}

} // verus!
