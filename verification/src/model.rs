//! The mathematical model of a tree, and what traversal, evaluation and
//! folding mean on it.

use vstd::prelude::*;

verus! {

/// What an operator is to a tree: which numbers of operands it takes, and
/// which value it may return for which operands.
#[verifier::reject_recursive_types(T)]
pub struct Operation<T> {
    /// The operator may be called on every sequence of that many values.
    pub takes: spec_fn(nat) -> bool,
    /// A call on the first may return the second.
    pub returns: spec_fn(Seq<T>, T) -> bool,
}

impl<T> Operation<T> {
    /// A call on `args` may return `r`.
    pub open spec fn gives(self, args: Seq<T>, r: T) -> bool {
        (self.returns)(args, r)
    }

    /// The operator is a function: it returns one value for one sequence of
    /// operands.
    pub open spec fn is_function(self) -> bool {
        forall|args: Seq<T>, r: T, s: T|
            #[trigger] self.gives(args, r) && #[trigger] self.gives(args, s) ==> r == s
    }

    /// The value of the operator on `args`: what a call returns, for an
    /// operator that is a function.
    pub open spec fn value(self, args: Seq<T>) -> T {
        choose|r: T| self.gives(args, r)
    }
}

/// What a node holds.
#[verifier::reject_recursive_types(T)]
pub enum Label<T> {
    /// A function from the values of the operands to one value.
    Operator(Operation<T>),
    /// A name to look up in the binding map.
    Variable(Seq<char>),
    /// A value.
    Constant(T),
}

/// A node with the nodes linked below it. `args` is `None` for a node that
/// was never linked.
#[verifier::reject_recursive_types(T)]
pub struct Term<T> {
    pub label: Label<T>,
    pub args: Option<Seq<Term<T>>>,
}

/// The node without anything linked below it.
pub open spec fn leaf<T>(label: Label<T>) -> Term<T> {
    Term { label, args: None }
}

/// Every vector of `n` values may be handed to `f`.
pub open spec fn total_at<T, F: Fn(Vec<T>) -> T>(f: F, n: nat) -> bool {
    forall|v: Vec<T>| v@.len() == n ==> #[trigger] call_requires(f, (v,))
}

/// A call of `f` on a vector that holds `args` may return `r`.
pub open spec fn may_return<T, F: Fn(Vec<T>) -> T>(f: F, args: Seq<T>, r: T) -> bool {
    exists|v: Vec<T>| v@ == args && #[trigger] call_ensures(f, (v,), r)
}

/// What the executable function `f` is as an operator.
pub open spec fn operation<T, F: Fn(Vec<T>) -> T>(f: F) -> Operation<T> {
    Operation {
        takes: |n: nat| total_at(f, n),
        returns: |args: Seq<T>, r: T| may_return(f, args, r),
    }
}

/// A clone of a `T` is the value it was made from.
pub open spec fn exact_clone<T: Clone>() -> bool {
    forall|a: T, b: T| #[trigger] call_ensures(T::clone, (&a,), b) ==> a == b
}

/// What a call of an operator that is a function returns is its value on
/// the operands.
pub proof fn lemma_call_value<T, F: Fn(Vec<T>) -> T>(f: F, v: Vec<T>, r: T)
    requires
        operation(f).is_function(),
        call_ensures(f, (v,), r),
    ensures
        operation(f).gives(v@, r),
        r == operation(f).value(v@),
{
    let op = operation(f);
    assert(may_return(f, v@, r));
    assert(op.gives(v@, r));
    assert(op.gives(v@, op.value(v@)));
}

/// Every node of `ts` is a constant.
pub open spec fn all_constants<T>(ts: Seq<Term<T>>) -> bool {
    forall|i: int| 0 <= i < ts.len() ==> (#[trigger] ts[i]).label is Constant
}

/// The values that the nodes of `ts` hold, for nodes that are constants.
pub open spec fn constants_of<T>(ts: Seq<Term<T>>) -> Seq<T> {
    Seq::new(ts.len(), |i: int| ts[i].label->Constant_0)
}

impl<T> Term<T> {
    /// The nodes linked below this one, left to right; none for a node that
    /// was never linked.
    pub open spec fn children(self) -> Seq<Term<T>> {
        match self.args {
            Some(cs) => cs,
            None => Seq::empty(),
        }
    }

    /// The nodes whose values this node is computed from: the children of an
    /// operator. What is linked below a variable or a constant is no operand.
    pub open spec fn operands(self) -> Seq<Term<T>> {
        if self.label is Operator {
            self.children()
        } else {
            Seq::empty()
        }
    }

    /// The nodes below this one that a walk goes into: the operands, or all
    /// the children.
    pub open spec fn below(self, operands_only: bool) -> Seq<Term<T>> {
        if operands_only {
            self.operands()
        } else {
            self.children()
        }
    }

    /// The walk of the nodes below this one from the `k`-th on, each after
    /// all that is below it, and then of this node itself.
    pub open spec fn order_from(self, operands_only: bool, k: nat) -> Seq<Term<T>>
        decreases self, self.below(operands_only).len() - k,
    {
        if k < self.below(operands_only).len() {
            self.below(operands_only)[k as int].order(operands_only)
                + self.order_from(operands_only, k + 1)
        } else {
            seq![self]
        }
    }

    /// The nodes in the order in which a walk visits them: every node after
    /// the nodes below it, these left to right.
    pub open spec fn order(self, operands_only: bool) -> Seq<Term<T>>
        decreases self, self.below(operands_only).len() + 1,
    {
        self.order_from(operands_only, 0)
    }

    /// Every node, each after all of its children.
    pub open spec fn post_order(self) -> Seq<Term<T>> {
        self.order(false)
    }

    /// The values of the first `k` operands, if each of them has one.
    pub open spec fn eval_upto(self, env: Map<Seq<char>, T>, k: nat) -> Option<Seq<T>>
        decreases self, k,
    {
        if k == 0 || k > self.operands().len() {
            Some(Seq::empty())
        } else {
            match (self.eval_upto(env, (k - 1) as nat), self.operands()[k - 1].eval(env)) {
                (Some(vs), Some(v)) => Some(vs.push(v)),
                _ => None,
            }
        }
    }

    /// The value of the tree under `env`: `None` where a variable that the
    /// value depends on has no entry.
    pub open spec fn eval(self, env: Map<Seq<char>, T>) -> Option<T>
        decreases self, self.operands().len() + 1,
    {
        match self.label {
            Label::Constant(c) => Some(c),
            Label::Variable(name) => if env.contains_key(name) {
                Some(env[name])
            } else {
                None
            },
            Label::Operator(op) => match self.eval_upto(env, self.operands().len()) {
                Some(vs) => Some(op.value(vs)),
                None => None,
            },
        }
    }

    /// Every variable among the node and its operands, down to the leaves,
    /// has an entry in `env`.
    pub open spec fn bound_in(self, env: Map<Seq<char>, T>) -> bool
        decreases self,
    {
        match self.label {
            Label::Constant(_) => true,
            Label::Variable(name) => env.contains_key(name),
            Label::Operator(_) => forall|i: int|
                0 <= i < self.operands().len() ==> (#[trigger] self.operands()[i]).bound_in(env),
        }
    }

    /// No variable among the node and its operands, down to the leaves.
    pub open spec fn ground(self) -> bool
        decreases self,
    {
        match self.label {
            Label::Constant(_) => true,
            Label::Variable(_) => false,
            Label::Operator(_) => forall|i: int|
                0 <= i < self.operands().len() ==> (#[trigger] self.operands()[i]).ground(),
        }
    }

    /// The operands, each folded.
    pub open spec fn reduced_operands(self) -> Seq<Term<T>>
        decreases self, 0nat,
    {
        Seq::new(
            self.operands().len(),
            |i: int|
                if 0 <= i < self.operands().len() {
                    self.operands()[i].reduced()
                } else {
                    self
                },
        )
    }

    /// The tree with every operator folded whose operands, once folded, are
    /// all constants: such an operator becomes the constant it computes, with
    /// nothing linked below it. Variables and constants stay as they are.
    pub open spec fn reduced(self) -> Term<T>
        decreases self, 1nat,
    {
        match self.label {
            Label::Operator(op) => {
                let kids = self.reduced_operands();
                if all_constants(kids) {
                    leaf(Label::Constant(op.value(constants_of(kids))))
                } else {
                    Term { label: self.label, args: Some(kids) }
                }
            },
            _ => self,
        }
    }

    /// Every call that the value under `env` is made of can be made: each
    /// operator on the way returns its value on the values of its operands.
    /// It says what the value is in terms of what the operators promise.
    pub open spec fn attained(self, env: Map<Seq<char>, T>) -> bool
        decreases self,
    {
        match self.label {
            Label::Operator(op) => {
                &&& forall|i: int|
                    0 <= i < self.operands().len() ==> (#[trigger] self.operands()[i]).attained(
                        env,
                    )
                &&& self.eval_upto(env, self.operands().len()) matches Some(vs) ==> op.gives(
                    vs,
                    op.value(vs),
                )
            },
            _ => true,
        }
    }

    /// Every call that folding makes can be made: each operator that is
    /// folded returns its value on the constants that its operands have
    /// become.
    pub open spec fn folds_attained(self) -> bool
        decreases self,
    {
        match self.label {
            Label::Operator(op) => {
                &&& forall|i: int|
                    0 <= i < self.operands().len() ==> (
                    #[trigger] self.operands()[i]).folds_attained()
                &&& all_constants(self.reduced_operands()) ==> op.gives(
                    constants_of(self.reduced_operands()),
                    op.value(constants_of(self.reduced_operands())),
                )
            },
            _ => true,
        }
    }

    /// The tree can be evaluated and folded: every operator that its value
    /// depends on has operands, takes that many of them whatever they hold,
    /// and is a function.
    pub open spec fn evaluable(self) -> bool
        decreases self,
    {
        match self.label {
            Label::Operator(op) => {
                &&& self.args is Some
                &&& self.operands().len() > 0
                &&& (op.takes)(self.operands().len())
                &&& op.is_function()
                &&& forall|i: int|
                    0 <= i < self.operands().len() ==> (#[trigger] self.operands()[i]).evaluable()
            },
            _ => true,
        }
    }
}

/// Once an operand has no value, no longer run of operands has values.
pub proof fn lemma_eval_upto_none<T>(
    t: Term<T>,
    env: Map<Seq<char>, T>,
    j: nat,
    n: nat,
)
    requires
        t.eval_upto(env, j) is None,
        j <= n <= t.operands().len(),
    ensures
        t.eval_upto(env, n) is None,
    decreases n,
{
    if j < n {
        lemma_eval_upto_none(t, env, j, (n - 1) as nat);
    }
}

/// Operands that are constants have the values that they hold.
pub proof fn lemma_eval_upto_constants<T>(
    t: Term<T>,
    env: Map<Seq<char>, T>,
    k: nat,
)
    requires
        k <= t.operands().len(),
        all_constants(t.operands()),
    ensures
        t.eval_upto(env, k) == Some(constants_of(t.operands()).take(k as int)),
    decreases k,
{
    if k > 0 {
        lemma_eval_upto_constants(t, env, (k - 1) as nat);
        let cs = constants_of(t.operands());
        assert(t.operands()[k - 1].label is Constant);
        assert(t.operands()[k - 1].eval(env) == Some(cs[k - 1]));
        assert(cs.take(k - 1).push(cs[k - 1]) =~= cs.take(k as int));
    } else {
        assert(constants_of(t.operands()).take(0) =~= Seq::<T>::empty());
    }
}

/// The values of the first `k` operands are `k` values.
pub proof fn lemma_eval_upto_len<T>(
    t: Term<T>,
    env: Map<Seq<char>, T>,
    k: nat,
)
    requires
        k <= t.operands().len(),
    ensures
        t.eval_upto(env, k) matches Some(vs) ==> vs.len() == k,
    decreases k,
{
    if k > 0 {
        lemma_eval_upto_len(t, env, (k - 1) as nat);
    }
}

} // verus!
