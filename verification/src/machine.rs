//! The stack machine that evaluates a tree from its walk in post-order, and
//! the proof that it computes what the recursive definition says.

use crate::model::{Label, Term};
use vstd::prelude::*;

verus! {

/// One move of the machine: a constant or a bound variable pushes its
/// value; an operator takes as many values off the stack as it has
/// operands, in the order in which they were pushed, and pushes its result.
/// `None` where a variable has no entry in `env`.
pub open spec fn step<T>(
    node: Term<T>,
    env: Map<Seq<char>, T>,
    stack: Seq<T>,
) -> Option<Seq<T>> {
    match node.label {
        Label::Constant(c) => Some(stack.push(c)),
        Label::Variable(name) => if env.contains_key(name) {
            Some(stack.push(env[name]))
        } else {
            None
        },
        Label::Operator(op) => {
            let base = stack.len() - node.operands().len();
            Some(stack.subrange(0, base).push(op.value(stack.subrange(base, stack.len() as int))))
        },
    }
}

/// The stack after the machine has taken `nodes` one by one, or `None` if
/// one of the moves fails; no move is made after that.
pub open spec fn run<T>(
    nodes: Seq<Term<T>>,
    env: Map<Seq<char>, T>,
    stack: Seq<T>,
) -> Option<Seq<T>>
    decreases nodes.len(),
{
    if nodes.len() == 0 {
        Some(stack)
    } else {
        match step(nodes[0], env, stack) {
            Some(after) => run(nodes.skip(1), env, after),
            None => None,
        }
    }
}

/// With `depth` values on the stack the machine can take `nodes` one by one:
/// every operator among them finds its operands on the stack, and may be
/// called on them.
pub open spec fn ready<T>(nodes: Seq<Term<T>>, depth: nat) -> bool
    decreases nodes.len(),
{
    nodes.len() == 0 || {
        let node = nodes[0];
        &&& node.label matches Label::Operator(op) ==> {
            &&& node.args is Some
            &&& 0 < node.operands().len() <= depth
            &&& (op.takes)(node.operands().len())
            &&& op.is_function()
        }
        &&& ready(nodes.skip(1), (depth - node.operands().len() + 1) as nat)
    }
}

/// Every call that the machine makes while it takes `nodes` can be made:
/// the operator returns its value on the operands that it finds on the stack.
/// Nothing is asked of what follows a move that fails.
pub open spec fn calls_made<T>(nodes: Seq<Term<T>>, env: Map<Seq<char>, T>, stack: Seq<T>) -> bool
    decreases nodes.len(),
{
    nodes.len() == 0 || match step(nodes[0], env, stack) {
        Some(after) => {
            &&& nodes[0].label matches Label::Operator(op) ==> {
                let found = stack.subrange(
                    stack.len() - nodes[0].operands().len(),
                    stack.len() as int,
                );
                op.gives(found, op.value(found))
            }
            &&& calls_made(nodes.skip(1), env, after)
        },
        None => true,
    }
}

impl<T> Term<T> {
    /// What the stack machine computes for the tree: the one value that it
    /// leaves on the stack after the walk over the operands, or `None` if a
    /// move failed.
    pub open spec fn machine(self, env: Map<Seq<char>, T>) -> Option<T> {
        match run(self.order(true), env, Seq::empty()) {
            Some(stack) => Some(stack.last()),
            None => None,
        }
    }
}

/// The machine, run over the walk of `t` from its `k`-th operand on with the
/// values `vs` of the operands before it on the stack, ends as it does
/// after one push of the value of `t`; and it fails where `t` has no value.
pub proof fn lemma_run_from<T>(
    t: Term<T>,
    k: nat,
    rest: Seq<Term<T>>,
    env: Map<Seq<char>, T>,
    stack: Seq<T>,
    vs: Seq<T>,
)
    requires
        k <= t.operands().len(),
        t.eval_upto(env, k) == Some(vs),
        vs.len() == k,
    ensures
        run(t.order_from(true, k) + rest, env, stack + vs) == match t.eval(env) {
            Some(v) => run(rest, env, stack.push(v)),
            None => None,
        },
    decreases t, t.operands().len() - k,
{
    let n = t.operands().len();
    let nodes = t.order_from(true, k) + rest;
    if k < n {
        let child = t.operands()[k as int];
        let tail = t.order_from(true, k + 1) + rest;
        assert(t.order_from(true, k) == child.order(true) + t.order_from(true, k + 1));
        assert(child.order(true) == child.order_from(true, 0));
        assert(nodes =~= child.order_from(true, 0) + tail);
        lemma_run_from(child, 0, tail, env, stack + vs, Seq::empty());
        assert(stack + vs + Seq::<T>::empty() =~= stack + vs);
        match child.eval(env) {
            Some(v) => {
                assert((stack + vs).push(v) =~= stack + vs.push(v));
                assert(t.eval_upto(env, k + 1) == Some(vs.push(v)));
                lemma_run_from(t, k + 1, rest, env, stack, vs.push(v));
            },
            None => {
                assert(t.eval_upto(env, k + 1) is None);
                crate::model::lemma_eval_upto_none(t, env, k + 1, n);
            },
        }
    } else {
        assert(nodes[0] == t);
        assert(nodes.skip(1) =~= rest);
        assert(stack + vs + Seq::<T>::empty() =~= stack + vs);
        if t.label is Operator {
            let full = stack + vs;
            assert(full.subrange(0, full.len() - n) =~= stack);
            assert(full.subrange(full.len() - n, full.len() as int) =~= vs);
        } else {
            assert(stack + vs =~= stack);
        }
    }
}

/// Where the machine could make every call of a run over the walk of `t`,
/// the value of `t` is made of calls that can be made, and so is the run
/// that follows.
pub proof fn lemma_calls_from<T>(
    t: Term<T>,
    k: nat,
    rest: Seq<Term<T>>,
    env: Map<Seq<char>, T>,
    stack: Seq<T>,
    vs: Seq<T>,
)
    requires
        k <= t.operands().len(),
        t.eval_upto(env, k) == Some(vs),
        vs.len() == k,
        forall|i: int| 0 <= i < k ==> (#[trigger] t.operands()[i]).attained(env),
        calls_made(t.order_from(true, k) + rest, env, stack + vs),
    ensures
        t.eval(env) matches Some(v) ==> t.attained(env) && calls_made(rest, env, stack.push(v)),
    decreases t, t.operands().len() - k,
{
    let n = t.operands().len();
    let nodes = t.order_from(true, k) + rest;
    if k < n {
        let child = t.operands()[k as int];
        let tail = t.order_from(true, k + 1) + rest;
        assert(t.order_from(true, k) == child.order(true) + t.order_from(true, k + 1));
        assert(child.order(true) == child.order_from(true, 0));
        assert(nodes =~= child.order_from(true, 0) + tail);
        assert(stack + vs + Seq::<T>::empty() =~= stack + vs);
        lemma_calls_from(child, 0, tail, env, stack + vs, Seq::empty());
        match child.eval(env) {
            Some(v) => {
                assert((stack + vs).push(v) =~= stack + vs.push(v));
                assert(t.eval_upto(env, k + 1) == Some(vs.push(v)));
                lemma_calls_from(t, k + 1, rest, env, stack, vs.push(v));
            },
            None => {
                assert(t.eval_upto(env, k + 1) is None);
                crate::model::lemma_eval_upto_none(t, env, k + 1, n);
            },
        }
    } else {
        assert(nodes[0] == t);
        assert(nodes.skip(1) =~= rest);
        if t.label is Operator {
            let full = stack + vs;
            assert(full.subrange(0, full.len() - n) =~= stack);
            assert(full.subrange(full.len() - n, full.len() as int) =~= vs);
        } else {
            assert(stack + vs =~= stack);
        }
    }
}

/// If the machine can go on after the value of `t` has been pushed, it can
/// take the walk of `t` from its `k`-th operand on once the values of the
/// operands before it have been pushed.
pub proof fn lemma_ready_from<T>(
    t: Term<T>,
    k: nat,
    rest: Seq<Term<T>>,
    depth: nat,
)
    requires
        t.evaluable(),
        k <= t.operands().len(),
        ready(rest, depth + 1),
    ensures
        ready(t.order_from(true, k) + rest, depth + k),
    decreases t, t.operands().len() - k,
{
    let n = t.operands().len();
    let nodes = t.order_from(true, k) + rest;
    if k < n {
        let child = t.operands()[k as int];
        let tail = t.order_from(true, k + 1) + rest;
        assert(t.order_from(true, k) == child.order(true) + t.order_from(true, k + 1));
        assert(child.order(true) == child.order_from(true, 0));
        assert(nodes =~= child.order_from(true, 0) + tail);
        lemma_ready_from(t, k + 1, rest, depth);
        lemma_ready_from(child, 0, tail, depth + k);
    } else {
        assert(nodes[0] == t);
        assert(nodes.skip(1) =~= rest);
    }
}

/// The stack machine and the recursive definition agree: under every map
/// they give a tree the same value, and where one fails the other does.
pub proof fn lemma_machine_agrees<T>(t: Term<T>, env: Map<Seq<char>, T>)
    ensures
        t.machine(env) == t.eval(env),
        run(t.order(true), env, Seq::empty()) == match t.eval(env) {
            Some(v) => Some(seq![v]),
            None => None,
        },
{
    let none = Seq::<Term<T>>::empty();
    let empty = Seq::<T>::empty();
    lemma_run_from(t, 0, none, env, empty, empty);
    assert(t.order_from(true, 0) + none =~= t.order(true));
    assert(empty + empty =~= empty);
    if let Some(v) = t.eval(env) {
        assert(empty.push(v) =~= seq![v]);
    }
}

/// Where the machine could make every call of its run over a tree that has
/// a value, the value is made of calls that can be made.
pub proof fn lemma_calls_attained<T>(t: Term<T>, env: Map<Seq<char>, T>)
    requires
        calls_made(t.order(true), env, Seq::empty()),
        t.eval(env) is Some,
    ensures
        t.attained(env),
{
    let none = Seq::<Term<T>>::empty();
    let empty = Seq::<T>::empty();
    assert(t.order_from(true, 0) + none =~= t.order(true));
    assert(empty + empty =~= empty);
    lemma_calls_from(t, 0, none, env, empty, empty);
}

/// With an empty stack the machine can take the walk of an evaluable tree.
pub proof fn lemma_ready<T>(t: Term<T>)
    requires
        t.evaluable(),
    ensures
        ready(t.order(true), 0),
{
    let none = Seq::<Term<T>>::empty();
    lemma_ready_from(t, 0, none, 0);
    assert(t.order_from(true, 0) + none =~= t.order(true));
}

} // verus!
