//! The index of a vocabulary.

use vstd::prelude::*;
use vstd::hash_map::StringHashMap;

verus! {

/// Token text to token id.
pub struct Ids {
    map: StringHashMap<u32>,
}

impl View for Ids {
    type V = Map<Seq<char>, u32>;

    closed spec fn view(&self) -> Map<Seq<char>, u32> {
        self.map@
    }
}

impl Ids {
    /// An empty index.
    pub fn new() -> (ids: Self)
        ensures
            ids@ == Map::<Seq<char>, u32>::empty(),
    {
        Ids { map: StringHashMap::new() }
    }

    /// Puts a token under its text, in place of one that was there.
    pub fn insert(&mut self, token: String, id: u32)
        ensures
            final(self)@ == old(self)@.insert(token@, id),
    {
        self.map.insert(token, id);
    }

    /// The id of a token.
    pub fn get(&self, token: &str) -> (id: Option<u32>)
        ensures
            id == lookup(self@, token@),
    {
        match self.map.get(token) {
            Some(id) => Some(*id),
            None => None,
        }
    }
}

/// The id of a token in a vocabulary, if it is there.
pub open spec fn lookup(ids: Map<Seq<char>, u32>, token: Seq<char>) -> Option<u32> {
    if ids.contains_key(token) {
        Some(ids[token])
    } else {
        None
    }
}

} // verus!
