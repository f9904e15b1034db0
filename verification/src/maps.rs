//! Maps from texts to texts.

use crate::json;
use vstd::hash_map::StringHashMap;
use vstd::prelude::*;

verus! {

/// A map from texts to texts.
pub struct TextMap {
    map: StringHashMap<String>,
}

impl View for TextMap {
    type V = Map<Seq<char>, Seq<char>>;

    closed spec fn view(&self) -> Map<Seq<char>, Seq<char>> {
        self.map@.map_values(|s: String| s@)
    }
}

/// The value of a key, where the map has it.
pub open spec fn value_of(m: Map<Seq<char>, Seq<char>>, key: Seq<char>) -> Option<Seq<char>> {
    if m.contains_key(key) {
        Some(m[key])
    } else {
        None
    }
}

impl TextMap {
    /// An empty map.
    pub fn new() -> (r: Self)
        ensures
            r@ == Map::<Seq<char>, Seq<char>>::empty(),
    {
        let map: StringHashMap<String> = StringHashMap::new();
        let r = TextMap { map };
        assert(r@ =~= Map::<Seq<char>, Seq<char>>::empty());
        r
    }

    /// Sets the value of a key.
    pub fn insert(&mut self, key: String, value: String)
        ensures
            final(self)@ == old(self)@.insert(key@, value@),
    {
        let ghost before = self@;
        self.map.insert(key, value);
        assert(self@ =~= before.insert(key@, value@));
    }

    /// The value of a key.
    pub fn get(&self, key: &str) -> (r: Option<&str>)
        ensures
            json::opt_str(r) == value_of(self@, key@),
    {
        match self.map.get(key) {
            Some(s) => Some(s.as_str()),
            None => None,
        }
    }
}

} // verus!
