//! Error values shared by evaluation and by tree construction.

use vstd::prelude::*;

verus! {

/// What went wrong.
#[derive(Clone, Copy, Debug, PartialEq, Eq, Structural)]
pub enum TreeErrorKind {
    /// Evaluation met a variable that the binding map does not hold.
    VarNotFound,
    /// Construction finished without the tree it was asked for.
    TreeNotInScope,
}

/// The text that describes an error of the given kind.
pub open spec fn message_of(kind: TreeErrorKind) -> Seq<char> {
    match kind {
        TreeErrorKind::VarNotFound => "Found variable in tree but not map"@,
        TreeErrorKind::TreeNotInScope => "Tree not defined in scope - use (define $name $tree)"@,
    }
}

/// An error: its kind and a text for people.
#[derive(Debug)]
pub struct TreeError {
    kind: TreeErrorKind,
    message: String,
}

impl TreeError {
    /// The kind of this error, in contracts.
    pub closed spec fn spec_kind(&self) -> TreeErrorKind {
        self.kind
    }

    /// The text of this error, in contracts.
    pub closed spec fn spec_message(&self) -> Seq<char> {
        self.message@
    }

    /// An error of the given kind, carrying the text that belongs to it.
    pub fn create(tek: TreeErrorKind) -> (e: TreeError)
        ensures
            e.spec_kind() == tek,
            e.spec_message() == message_of(tek),
    {
        match tek {
            TreeErrorKind::VarNotFound => TreeError {
                kind: TreeErrorKind::VarNotFound,
                message: "Found variable in tree but not map".to_owned(),
            },
            TreeErrorKind::TreeNotInScope => TreeError {
                kind: TreeErrorKind::TreeNotInScope,
                message: "Tree not defined in scope - use (define $name $tree)".to_owned(),
            },
        }
    }

    /// The kind of this error.
    pub fn kind(&self) -> (k: TreeErrorKind)
        ensures
            k == self.spec_kind(),
    {
        self.kind
    }

    /// The text of this error.
    pub fn message(&self) -> (m: &String)
        ensures
            m@ == self.spec_message(),
    {
        &self.message
    }
}

} // verus!
