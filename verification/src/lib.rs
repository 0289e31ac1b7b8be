//! Symbolic expression trees: nodes tagged operator, variable or constant,
//! with a post-order traversal, two evaluators and a constant folder.
//!
//! A [`Tree`] holds an [`Expression`] and, once linked, the trees below it.
//! Its operators are executable functions of one type `F`; a tree that mixes
//! several takes function pointers for `F`. What a tree means is stated on
//! its model, a [`Term`]: the walk in post-order, the value under a map of
//! [`Bindings`], and the folded tree. The contracts of the executable
//! functions speak of the model, and the laws of the model are proved beside
//! it.
//!
//! Links are accepted below every node. Only those of an operator are its
//! operands: evaluation and folding never look below a variable or a
//! constant, while the walk in post-order that [`Tree::post_iter`] gives goes
//! into every link.

pub mod bindings;
pub mod evaluate;
pub mod laws;
pub mod machine;
pub mod model;
pub mod nameset;
pub mod postorder;
pub mod tree;
pub mod treebuilder;
pub mod treeerror;
pub mod visits;

pub use bindings::Bindings;
pub use model::{Label, Term};
pub use nameset::NameSet;
pub use postorder::TreePostIter;
pub use tree::{Expression, Tree};
pub use treebuilder::TreeBuilder;
pub use treeerror::{TreeError, TreeErrorKind};
