//! The binding map: a value for each variable name.

use vstd::hash_map::StringHashMap;
use vstd::prelude::*;

verus! {

/// A map from variable names to values. A name has at most one value.
#[verifier::reject_recursive_types(T)]
pub struct Bindings<T> {
    map: StringHashMap<T>,
}

impl<T> View for Bindings<T> {
    type V = Map<Seq<char>, T>;

    closed spec fn view(&self) -> Map<Seq<char>, T> {
        self.map@
    }
}

impl<T> Bindings<T> {
    /// A map without entries.
    pub fn new() -> (b: Bindings<T>)
        ensures
            b@ == Map::<Seq<char>, T>::empty(),
    {
        Bindings { map: StringHashMap::new() }
    }

    /// Gives `name` the value `value`, in place of the one it had.
    pub fn insert(&mut self, name: String, value: T)
        ensures
            final(self)@ == old(self)@.insert(name@, value),
    {
        self.map.insert(name, value);
    }

    /// The value of `name`, if it has one.
    pub fn get(&self, name: &str) -> (r: Option<&T>)
        ensures
            match r {
                Some(v) => self@.contains_key(name@) && *v == self@[name@],
                None => !self@.contains_key(name@),
            },
    {
        self.map.get(name)
    }

    /// The number of names that have a value.
    pub fn len(&self) -> (n: usize)
        ensures
            n == self@.len(),
    {
        self.map.len()
    }
}

} // verus!
