//! Options of a store: values by name.

use vstd::hash_map::StringHashMap;
use vstd::prelude::*;

verus! {

/// Values by name.
pub struct StorageOptions {
    entries: StringHashMap<String>,
}

impl View for StorageOptions {
    type V = Map<Seq<char>, Seq<char>>;

    closed spec fn view(&self) -> Map<Seq<char>, Seq<char>> {
        self.entries@.map_values(|value: String| value@)
    }
}

impl StorageOptions {
    /// No options.
    pub fn new() -> (r: Self)
        ensures
            r@ == Map::<Seq<char>, Seq<char>>::empty(),
    {
        let r = StorageOptions { entries: StringHashMap::new() };
        assert(r@ =~= Map::empty());
        r
    }

    /// Gives a name its value.
    pub fn insert(&mut self, name: String, value: String)
        ensures
            final(self)@ == old(self)@.insert(name@, value@),
    {
        self.entries.insert(name, value);
        assert(self@ =~= old(self)@.insert(name@, value@));
    }

    /// The value of a name, where it has one.
    pub fn get(&self, name: &str) -> (r: Option<&String>)
        ensures
            match r {
                Some(value) => self@.contains_key(name@) && self@[name@] == value@,
                None => !self@.contains_key(name@),
            },
    {
        self.entries.get(name)
    }
}

} // verus!
