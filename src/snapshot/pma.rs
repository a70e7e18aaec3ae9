use crate::noun::{Noun, Tree};
use vstd::prelude::*;

verus! {

/// The root record of a persistent arena: the epoch, the event number and
/// the word of the root noun.
pub struct RootState {
    pub epoch: u64,
    pub event: u64,
    pub root: u64,
}

/// A snapshot store kept in the directory `path`, with the noun last saved.
pub struct Pma {
    path: String,
    noun: Noun,
}

impl Pma {
    pub closed spec fn path_view(&self) -> Seq<char> {
        self.path@
    }

    pub closed spec fn noun_view(&self) -> Noun {
        self.noun
    }

    /// A store in directory `path` that holds the atom 0.
    pub fn new(path: String) -> (r: Pma)
        ensures
            r.path_view() == path@,
            r.noun_view()@ == Tree::Atom(0),
            r.noun_view().wf(),
    {
        Pma { path, noun: Noun::direct(0) }
    }

    /// The directory of the store.
    pub fn path(&self) -> (r: &String)
        ensures
            r@ == self.path_view(),
    {
        &self.path
    }

    /// The noun last saved.
    pub fn noun(&self) -> (r: &Noun)
        ensures
            *r == self.noun_view(),
    {
        &self.noun
    }

    /// Records `noun` as the state to write out at the next sync.
    pub fn save(&mut self, noun: &Noun)
        ensures
            final(self).noun_view() == *noun,
            final(self).path_view() == old(self).path_view(),
    {
        self.noun = noun.copy();
    }
}

} // verus!
