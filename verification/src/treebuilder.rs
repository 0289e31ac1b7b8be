//! What goes into building a tree from program text: the text itself, in
//! three parts, the variables that the program names, and the outcome.

use crate::model::{leaf, Label};
use crate::nameset::NameSet;
use crate::tree::{Expression, Tree};
use crate::treeerror::{message_of, TreeError, TreeErrorKind};
use vstd::prelude::*;
use vstd::string::StringExecFns;

verus! {

/// The program text that a tree is built from: a body between a prologue
/// and an epilogue.
pub struct TreeBuilder<'a> {
    kcode: &'a str,
    prologue: &'a str,
    epilogue: &'a str,
}

/// The three parts on three lines: the prologue, the body, the epilogue.
pub open spec fn joined(prologue: Seq<char>, body: Seq<char>, epilogue: Seq<char>) -> Seq<char> {
    prologue + seq!['\n'] + body + seq!['\n'] + epilogue
}

impl<'a> TreeBuilder<'a> {
    /// The body, in contracts.
    pub closed spec fn body(&self) -> Seq<char> {
        self.kcode@
    }

    /// The prologue, in contracts.
    pub closed spec fn before(&self) -> Seq<char> {
        self.prologue@
    }

    /// The epilogue, in contracts.
    pub closed spec fn after(&self) -> Seq<char> {
        self.epilogue@
    }

    /// A builder for the body `body` between `pr` and `ep`.
    pub fn new(body: &'a str, pr: &'a str, ep: &'a str) -> (b: TreeBuilder<'a>)
        ensures
            b.body() == body@,
            b.before() == pr@,
            b.after() == ep@,
    {
        TreeBuilder { kcode: body, prologue: pr, epilogue: ep }
    }

    /// Replaces the body.
    pub fn set_body(&mut self, s: &'a str)
        ensures
            final(self).body() == s@,
            final(self).before() == old(self).before(),
            final(self).after() == old(self).after(),
    {
        self.kcode = s;
    }

    /// Replaces the prologue.
    pub fn set_prologue(&mut self, s: &'a str)
        ensures
            final(self).before() == s@,
            final(self).body() == old(self).body(),
            final(self).after() == old(self).after(),
    {
        self.prologue = s;
    }

    /// Replaces the epilogue.
    pub fn set_epilogue(&mut self, s: &'a str)
        ensures
            final(self).after() == s@,
            final(self).body() == old(self).body(),
            final(self).before() == old(self).before(),
    {
        self.epilogue = s;
    }

    /// The whole program: the prologue, the body and the epilogue, each on a
    /// line of its own.
    pub fn program(&self) -> (text: String)
        ensures
            text@ == joined(self.before(), self.body(), self.after()),
    {
        proof {
            reveal_strlit("\n");
        }
        let mut text = String::new();
        text.append(self.prologue);
        text.append("\n");
        text.append(self.kcode);
        text.append("\n");
        text.append(self.epilogue);
        assert("\n"@ =~= seq!['\n']);
        assert(text@ =~= joined(self.before(), self.body(), self.after()));
        text
    }

    /// The node for a variable that the program names: the name is put into
    /// `seen`, so that the caller knows which names to bind before the tree
    /// is evaluated.
    pub fn variable<T: Clone + core::fmt::Debug, F: Fn(Vec<T>) -> T + Copy>(
        seen: &mut NameSet,
        name: &str,
    ) -> (t: Tree<T, F>)
        ensures
            final(seen)@ == old(seen)@.insert(name@),
            final(seen).listed() == if old(seen)@.contains(name@) {
                old(seen).listed()
            } else {
                old(seen).listed().push(name@)
            },
            t@ == leaf(Label::<T>::Variable(name@)),
    {
        seen.insert(name);
        Tree::new(Expression::Variable(name.to_owned()))
    }

    /// The outcome of a run of the program: the tree that it defined under
    /// the name asked for, with the names seen, or `TreeNotInScope` if it
    /// defined none.
    pub fn outcome<T, F>(found: Option<Tree<T, F>>, seen: NameSet) -> (r: Result<
        (Tree<T, F>, NameSet),
        TreeError,
    >)
        ensures
            match found {
                Some(t) => r == Ok::<(Tree<T, F>, NameSet), TreeError>((t, seen)),
                None => {
                    &&& r matches Err(e)
                    &&& e.spec_kind() == TreeErrorKind::TreeNotInScope
                    &&& e.spec_message() == message_of(TreeErrorKind::TreeNotInScope)
                },
            },
    {
        match found {
            Some(t) => Ok((t, seen)),
            None => Err(TreeError::create(TreeErrorKind::TreeNotInScope)),
        }
    }
}

} // verus!
