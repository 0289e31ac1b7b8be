//! The set of variable names that were seen while a tree was built.

use vstd::prelude::*;

verus! {

/// A set of names. Each name is held once, in the order in which it came.
pub struct NameSet {
    names: Vec<String>,
}

impl View for NameSet {
    type V = Set<Seq<char>>;

    closed spec fn view(&self) -> Set<Seq<char>> {
        Set::new(|name: Seq<char>| exists|i: int| 0 <= i < self.names@.len() && self.names@[i]@ == name)
    }
}

impl NameSet {
    /// No name is held twice.
    #[verifier::type_invariant]
    spec fn wf(&self) -> bool {
        forall|i: int, j: int|
            0 <= i < j < self.names@.len() ==> self.names@[i]@ != self.names@[j]@
    }

    /// The names in the order in which they came.
    pub closed spec fn listed(&self) -> Seq<Seq<char>> {
        Seq::new(self.names@.len(), |i: int| self.names@[i]@)
    }

    /// The set without names.
    pub fn new() -> (s: NameSet)
        ensures
            s@ == Set::<Seq<char>>::empty(),
            s.listed() == Seq::<Seq<char>>::empty(),
    {
        let s = NameSet { names: Vec::new() };
        assert(s@ =~= Set::<Seq<char>>::empty());
        assert(s.listed() =~= Seq::<Seq<char>>::empty());
        s
    }

    /// Whether `name` is in the set.
    pub fn contains(&self, name: &str) -> (found: bool)
        ensures
            found == self@.contains(name@),
    {
        let wanted = name.to_owned();
        let mut i: usize = 0;
        while i < self.names.len()
            invariant
                i <= self.names@.len(),
                wanted@ == name@,
                forall|j: int| 0 <= j < i ==> self.names@[j]@ != name@,
            decreases self.names.len() - i,
        {
            if self.names[i] == wanted {
                return true;
            }
            i += 1;
        }
        false
    }

    /// Puts `name` into the set. Returns whether it was new.
    pub fn insert(&mut self, name: &str) -> (fresh: bool)
        ensures
            final(self)@ == old(self)@.insert(name@),
            fresh == !old(self)@.contains(name@),
            final(self).listed() == if fresh {
                old(self).listed().push(name@)
            } else {
                old(self).listed()
            },
    {
        proof {
            use_type_invariant(&*self);
        }
        if self.contains(name) {
            assert(self@ =~= old(self)@.insert(name@));
            false
        } else {
            let mut names: Vec<String> = Vec::new();
            core::mem::swap(&mut names, &mut self.names);
            names.push(name.to_owned());
            self.names = names;
            proof {
                let before = old(self).names@;
                let after = self.names@;
                assert forall|n: Seq<char>| self@.contains(n) == old(self)@.insert(
                    name@,
                ).contains(n) by {
                    if old(self)@.insert(name@).contains(n) {
                        if n == name@ {
                            assert(after[after.len() - 1]@ == n);
                        } else {
                            let i = choose|i: int| 0 <= i < before.len() && before[i]@ == n;
                            assert(after[i]@ == n);
                        }
                    }
                    if self@.contains(n) {
                        let i = choose|i: int| 0 <= i < after.len() && after[i]@ == n;
                        if i < before.len() {
                            assert(before[i]@ == n);
                        }
                    }
                }
                assert(self@ =~= old(self)@.insert(name@));
                assert forall|i: int, j: int| 0 <= i < j < after.len() implies after[i]@
                    != after[j]@ by {
                    if j == before.len() {
                        assert(before[i]@ == after[i]@);
                        assert(old(self)@.contains(before[i]@));
                    } else {
                        assert(before[i]@ == after[i]@ && before[j]@ == after[j]@);
                    }
                }
                assert(self.listed() =~= old(self).listed().push(name@));
            }
            true
        }
    }

    /// The number of names in the set.
    pub fn len(&self) -> (n: usize)
        ensures
            n == self.listed().len(),
    {
        self.names.len()
    }

    /// The names, each once, in the order in which they came.
    pub fn names(&self) -> (v: &Vec<String>)
        ensures
            v@.len() == self.listed().len(),
            forall|i: int| 0 <= i < v@.len() ==> (#[trigger] v@[i])@ == self.listed()[i],
    {
        &self.names
    }
}

} // verus!
