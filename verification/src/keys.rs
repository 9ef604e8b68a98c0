//! Sets of key names, as the browser games keep the keys held down.
use vstd::prelude::*;

verus! {

/// The lower-case form of a text, as `str::to_lowercase` gives it (Unicode
/// lower-casing, which does not depend on any locale).
pub uninterp spec fn lowercase_of(s: Seq<char>) -> Seq<char>;

/// `str::to_lowercase`.  Its result is the lower-case form of `s`; what that
/// form is, character by character, is left to the Unicode tables of std and
/// is not stated here.
#[verifier::external_body]
pub(crate) fn lowercase(s: &str) -> (r: String)
    ensures
        r@ == lowercase_of(s@),
{
    s.to_lowercase()
}

pub open spec fn names(v: Seq<String>) -> Seq<Seq<char>> {
    v.map_values(|s: String| s@)
}

/// A finite set of key names.
pub struct KeySet {
    keys: Vec<String>,
}

impl View for KeySet {
    type V = Set<Seq<char>>;

    closed spec fn view(&self) -> Set<Seq<char>> {
        names(self.keys@).to_set()
    }
}

impl KeySet {
    /// No name is held twice.
    pub closed spec fn wf(self) -> bool {
        names(self.keys@).no_duplicates()
    }

    pub fn new() -> (r: KeySet)
        ensures
            r.wf(),
            r@ == Set::<Seq<char>>::empty(),
    {
        let r = KeySet { keys: Vec::new() };
        assert(r@ =~= Set::<Seq<char>>::empty());
        r
    }

    fn position(&self, key: &String) -> (r: Option<usize>)
        ensures
            match r {
                Some(i) => i < self.keys.len() && names(self.keys@)[i as int] == key@,
                None => !names(self.keys@).contains(key@),
            },
    {
        let mut i: usize = 0;
        while i < self.keys.len()
            invariant
                i <= self.keys.len(),
                forall|j: int| 0 <= j < i ==> names(self.keys@)[j] != key@,
            decreases self.keys.len() - i,
        {
            if self.keys[i] == *key {
                return Some(i);
            }
            i = i + 1;
        }
        None
    }

    pub fn contains(&self, key: &String) -> (r: bool)
        ensures
            r == self@.contains(key@),
    {
        self.position(key).is_some()
    }

    /// Adds `key`; says whether it was not there before.
    pub fn insert(&mut self, key: String) -> (added: bool)
        requires
            old(self).wf(),
        ensures
            final(self).wf(),
            added == !old(self)@.contains(key@),
            final(self)@ == old(self)@.insert(key@),
    {
        match self.position(&key) {
            Some(_) => {
                assert(self@ =~= self@.insert(key@));
                false
            },
            None => {
                let ghost k = key@;
                let ghost before = names(self.keys@);
                self.keys.push(key);
                assert(names(self.keys@) =~= before.push(k));
                assert forall|x: Seq<char>| #[trigger]
                    names(self.keys@).contains(x) == (before.contains(x) || x == k) by {
                    if x == k {
                        assert(names(self.keys@)[before.len() as int] == k);
                    }
                    if before.contains(x) {
                        let j = choose|j: int| 0 <= j < before.len() && before[j] == x;
                        assert(names(self.keys@)[j] == x);
                    }
                }
                assert(self@ =~= before.to_set().insert(k));
                true
            },
        }
    }

    /// Takes `key` out, if it is there.
    pub fn remove(&mut self, key: &String)
        requires
            old(self).wf(),
        ensures
            final(self).wf(),
            final(self)@ == old(self)@.remove(key@),
    {
        match self.position(key) {
            None => {
                assert(self@ =~= self@.remove(key@));
            },
            Some(i) => {
                let ghost before = names(self.keys@);
                self.keys.remove(i);
                assert(names(self.keys@) =~= before.remove(i as int));
                assert forall|x: Seq<char>| #[trigger]
                    names(self.keys@).contains(x) == (before.contains(x) && x != key@) by {
                    if names(self.keys@).contains(x) {
                        let j = choose|j: int|
                            0 <= j < names(self.keys@).len() && names(self.keys@)[j] == x;
                        if j < i {
                            assert(before[j] == x);
                        } else {
                            assert(before[j + 1] == x);
                        }
                    }
                    if before.contains(x) && x != key@ {
                        let j = choose|j: int| 0 <= j < before.len() && before[j] == x;
                        if j < i {
                            assert(names(self.keys@)[j] == x);
                        } else {
                            assert(names(self.keys@)[j - 1] == x);
                        }
                    }
                }
                assert(self@ =~= before.to_set().remove(key@));
            },
        }
    }

    pub fn clear(&mut self)
        ensures
            final(self).wf(),
            final(self)@ == Set::<Seq<char>>::empty(),
    {
        self.keys.clear();
        assert(self@ =~= Set::<Seq<char>>::empty());
    }
}

} // verus!
