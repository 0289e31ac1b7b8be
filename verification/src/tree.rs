//! The tree itself: a node, what it holds, and the nodes linked below it.

use crate::laws::lemma_reduced_evaluable;
use crate::model::{
    all_constants, constants_of, exact_clone, leaf, lemma_call_value, lemma_eval_upto_constants,
    lemma_eval_upto_len, operation, Label, Term,
};
use vstd::prelude::*;

verus! {

/// What a node holds: an operator, the name of a variable, or a constant.
///
/// An operator is a function from the values of its operands, in the order
/// in which they are linked, to one value.
#[derive(Debug)]
pub enum Expression<T, F> {
    Operator(F),
    Variable(String),
    Constant(T),
}

/// What `e` is in the model of a tree.
pub open spec fn label_of<T, F: Fn(Vec<T>) -> T>(e: Expression<T, F>) -> Label<T> {
    match e {
        Expression::Operator(f) => Label::Operator(operation(f)),
        Expression::Variable(name) => Label::Variable(name@),
        Expression::Constant(c) => Label::Constant(c),
    }
}

/// A node of a symbolic expression, with the nodes linked below it.
///
/// A tree owns what is linked below it. A second handle on an expression is
/// a clone: it shows what the first shows, and nothing that is later done
/// through one of the two, by `link` or by `reduce`, shows through the other.
#[derive(Debug)]
pub struct Tree<T, F> {
    data: Expression<T, F>,
    links: Option<Vec<Tree<T, F>>>,
}

/// The models of the trees of `ts`, in the same order.
pub open spec fn views<T, F: Fn(Vec<T>) -> T>(ts: Seq<Tree<T, F>>) -> Seq<Term<T>> {
    Seq::new(ts.len(), |i: int| ts[i]@)
}

impl<T, F: Fn(Vec<T>) -> T> Tree<T, F> {
    /// The model of the tree: what the node holds, and the models of what is
    /// linked below it.
    pub closed spec fn view(&self) -> Term<T> {
        self.model()
    }
}

impl<T, F: Fn(Vec<T>) -> T> Tree<T, F> {
    spec fn model(self) -> Term<T>
        decreases self,
    {
        Term {
            label: label_of(self.data),
            args: match self.links {
                Some(v) => Some(
                    Seq::new(
                        v@.len(),
                        |i: int|
                            if 0 <= i < v@.len() {
                                v@[i].model()
                            } else {
                                leaf(label_of(self.data))
                            },
                    ),
                ),
                None => None,
            },
        }
    }

    /// The model of a node is what it holds and the models of what is linked
    /// below it.
    proof fn lemma_view(&self)
        ensures
            self@.label == label_of(self.data),
            self@.args == match self.links {
                Some(v) => Some(views(v@)),
                None => None,
            },
    {
        match self.links {
            Some(v) => {
            },
            None => {},
        }
    }
}

impl<T, F: Fn(Vec<T>) -> T> Tree<T, F> {
    /// A node has no more children than a vector can hold.
    pub(crate) proof fn lemma_children_fit(&self)
        ensures
            self@.children().len() <= usize::MAX,
    {
        self.lemma_view();
        match self.links {
            Some(v) => {
                assert(views(v@).len() == v.len());
            },
            None => {},
        }
    }
}

impl<T: Clone, F: Fn(Vec<T>) -> T + Copy> Clone for Expression<T, F> {
    /// A copy that holds the same: where a clone of a `T` is the value it
    /// was made from, the copy has the model of what it was made from.
    fn clone(&self) -> (e: Self)
        ensures
            exact_clone::<T>() ==> label_of(e) == label_of(*self),
    {
        match self {
            Expression::Operator(f) => Expression::Operator(*f),
            Expression::Variable(name) => Expression::Variable(name.clone()),
            Expression::Constant(c) => Expression::Constant(c.clone()),
        }
    }
}

impl<T: Clone, F: Fn(Vec<T>) -> T + Copy> Tree<T, F> {
    /// A second tree with the model of this one.
    fn duplicate(&self) -> (t: Self)
        ensures
            exact_clone::<T>() ==> t@ == self@,
        decreases self@,
    {
        proof {
            self.lemma_view();
        }
        let links = match &self.links {
            Some(kinks) => {
                let mut copies: Vec<Tree<T, F>> = Vec::with_capacity(kinks.len());
                let mut i: usize = 0;
                while i < kinks.len()
                    invariant
                        i <= kinks.len(),
                        copies@.len() == i,
                        self@.args == Some(views(kinks@)),
                        exact_clone::<T>() ==> forall|j: int|
                            0 <= j < i ==> (#[trigger] copies@[j])@ == kinks@[j]@,
                    decreases kinks.len() - i,
                {
                    assert(kinks@[i as int]@ == self@.args->0[i as int]);
                    copies.push(kinks[i].duplicate());
                    i += 1;
                }
                assert(exact_clone::<T>() ==> views(copies@) =~= views(kinks@));
                Some(copies)
            },
            None => None,
        };
        let t = Tree { data: self.data.clone(), links };
        proof {
            t.lemma_view();
        }
        t
    }
}

impl<T: Clone, F: Fn(Vec<T>) -> T + Copy> Clone for Tree<T, F> {
    /// A second handle on the same expression: a tree of its own that shows
    /// what this one shows. What is done to one of the two through `link` or
    /// `reduce` is not seen through the other.
    fn clone(&self) -> (t: Self)
        ensures
            exact_clone::<T>() ==> t@ == self@,
    {
        self.duplicate()
    }
}

impl<T: Clone + core::fmt::Debug, F: Fn(Vec<T>) -> T + Copy> Tree<T, F> {
    /// A node that holds `ex`, with nothing linked below it.
    pub fn new(ex: Expression<T, F>) -> (t: Tree<T, F>)
        ensures
            t@ == (Term { label: label_of(ex), args: None }),
    {
        Tree { data: ex, links: None }
    }

    /// Links `b` below the node in place of what was linked there. What the
    /// node holds stays. A variable or a constant takes links too; they
    /// are no operands, and evaluation and folding pass them by.
    pub fn link(&mut self, b: Vec<Tree<T, F>>)
        ensures
            final(self)@ == (Term { label: old(self)@.label, args: Some(views(b@)) }),
    {
        proof {
            self.lemma_view();
        }
        self.links = Some(b);
        proof {
            self.lemma_view();
        }
    }

    /// The value of a tree without variables whose operators can be applied.
    fn reduce_helper(&self) -> (r: T)
        requires
            self@.evaluable(),
            self@.ground(),
            exact_clone::<T>(),
        ensures
            forall|env: Map<Seq<char>, T>| #[trigger] self@.eval(env) == Some(r),
            forall|env: Map<Seq<char>, T>| #[trigger] self@.attained(env),
        decreases self@,
    {
        proof {
            self.lemma_view();
        }
        match &self.data {
            Expression::Operator(f) => match &self.links {
                Some(kinks) => {
                    let mut vals: Vec<T> = Vec::with_capacity(kinks.len());
                    let mut i: usize = 0;
                    while i < kinks.len()
                        invariant
                            i <= kinks.len(),
                            self@.evaluable(),
                            self@.ground(),
                            exact_clone::<T>(),
                            self@.operands() == views(kinks@),
                            forall|env: Map<Seq<char>, T>| #[trigger]
                                self@.eval_upto(env, i as nat) == Some(vals@),
                            forall|env: Map<Seq<char>, T>, j: int|
                                0 <= j < i ==> #[trigger] self@.operands()[j].attained(env),
                        decreases kinks.len() - i,
                    {
                        let v = kinks[i].reduce_helper();
                        vals.push(v);
                        assert forall|env: Map<Seq<char>, T>| #[trigger]
                            self@.eval_upto(env, (i + 1) as nat) == Some(vals@) by {
                            assert(self@.eval_upto(env, i as nat) is Some);
                            assert(self@.operands()[i as int].eval(env) == Some(v));
                        }
                        i += 1;
                    }
                    proof {
                        lemma_eval_upto_len(self@, Map::empty(), i as nat);
                    }
                    let r = f(vals);
                    proof {
                        lemma_call_value(*f, vals, r);
                        assert forall|env: Map<Seq<char>, T>| #[trigger]
                            self@.eval(env) == Some(r) by {
                            assert(self@.eval_upto(env, i as nat) == Some(vals@));
                        }
                        assert forall|env: Map<Seq<char>, T>| #[trigger]
                            self@.attained(env) by {
                            assert forall|j: int| 0 <= j < self@.operands().len() implies (
                            #[trigger] self@.operands()[j]).attained(env) by {}
                        }
                    }
                    r
                },
                None => unreached(),
            },
            Expression::Constant(c) => c.clone(),
            Expression::Variable(_) => unreached(),
        }
    }

    /// Folds constants: every operator whose operands, once folded, are all
    /// constants becomes the constant that it computes, with nothing linked
    /// below it. Variables and constants stay as they are, and so does what
    /// is linked below them.
    pub fn reduce(&mut self)
        requires
            old(self)@.evaluable(),
            exact_clone::<T>(),
        ensures
            final(self)@ == old(self)@.reduced(),
            final(self)@.evaluable(),
            old(self)@.folds_attained(),
        decreases old(self)@,
    {
        proof {
            self.lemma_view();
            lemma_reduced_evaluable(self@);
        }
        if let Expression::Operator(_) = &self.data {
            let ghost orig = self@.operands();
            let mut kinks = match self.links.take() {
                Some(kinks) => kinks,
                None => unreached(),
            };
            let mut i: usize = 0;
            while i < kinks.len()
                invariant
                    i <= kinks.len(),
                    kinks@.len() == orig.len(),
                    exact_clone::<T>(),
                    orig == old(self)@.operands(),
                    old(self)@.label is Operator,
                    forall|j: int| 0 <= j < orig.len() ==> (#[trigger] orig[j]).evaluable(),
                    forall|j: int| 0 <= j < i ==> (#[trigger] kinks@[j])@ == orig[j].reduced(),
                    forall|j: int| 0 <= j < i ==> (#[trigger] orig[j]).folds_attained(),
                    forall|j: int| i <= j < orig.len() ==> (#[trigger] kinks@[j])@ == orig[j],
                decreases kinks.len() - i,
            {
                kinks[i].reduce();
                i += 1;
            }
            let mut all_const = true;
            let mut k: usize = 0;
            while k < kinks.len()
                invariant
                    k <= kinks.len(),
                    all_const <==> forall|j: int|
                        0 <= j < k ==> (#[trigger] kinks@[j])@.label is Constant,
                decreases kinks.len() - k,
            {
                match kinks[k].data() {
                    Expression::Constant(_) => {},
                    _ => {
                        all_const = false;
                    },
                }
                k += 1;
            }
            self.links = Some(kinks);
            proof {
                self.lemma_view();
                let kids = old(self)@.reduced_operands();
                assert(self@.operands() == kids);
                if all_const {
                    assert forall|j: int| 0 <= j < kids.len() implies (
                    #[trigger] kids[j]).label is Constant by {}
                } else {
                    let j = choose|j: int|
                        0 <= j < kinks@.len() && !((#[trigger] kinks@[j])@.label is Constant);
                    assert(!(kids[j].label is Constant));
                }
            }
            if all_const {
                proof {
                    lemma_eval_upto_constants(self@, Map::empty(), self@.operands().len());
                    assert(self@.operands().take(self@.operands().len() as int)
                        =~= self@.operands());
                    assert(constants_of(self@.operands()).take(self@.operands().len() as int)
                        =~= constants_of(self@.operands()));
                    assert forall|j: int| 0 <= j < self@.operands().len() implies (
                    #[trigger] self@.operands()[j]).ground() && self@.operands()[j].evaluable() by {}
                }
                let ghost folded = self@;
                let v = self.reduce_helper();
                assert(folded.eval(Map::empty()) == Some(v));
                assert(folded.attained(Map::empty()));
                self.data = Expression::Constant(v);
                self.links = None;
                proof {
                    self.lemma_view();
                }
            }
        }
    }

    /// What the node holds.
    pub fn data(&self) -> (e: &Expression<T, F>)
        ensures
            label_of(*e) == self@.label,
    {
        proof {
            self.lemma_view();
        }
        &self.data
    }

    /// What is linked below the node: `None` if it was never linked.
    pub fn children(&self) -> (c: &Option<Vec<Tree<T, F>>>)
        ensures
            self@.args == match *c {
                Some(v) => Some(views(v@)),
                None => None,
            },
    {
        proof {
            self.lemma_view();
        }
        &self.links
    }
}

} // verus!
