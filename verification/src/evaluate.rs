//! The two evaluators: one that follows the tree by recursion, and one that
//! runs a stack machine over the walk in post-order.

use crate::bindings::Bindings;
use crate::laws::lemma_value_iff_bound;
use crate::machine::{
    calls_made, lemma_calls_attained, lemma_machine_agrees, lemma_ready, ready, run,
};
use crate::model::{exact_clone, lemma_call_value, lemma_eval_upto_len, lemma_eval_upto_none};
use crate::postorder::TreePostIter;
use crate::tree::{views, Expression, Tree};
use crate::treeerror::{message_of, TreeError, TreeErrorKind};
use vstd::prelude::*;

verus! {

impl<T: Clone + core::fmt::Debug, F: Fn(Vec<T>) -> T + Copy> Tree<T, F> {
    /// Evaluates the tree without recursion, by a stack machine over the
    /// walk in post-order: a constant or a variable pushes its value, an
    /// operator takes the values of its operands off the stack and pushes
    /// its result. The walk goes into operands only.
    ///
    /// The result is that of `accumulate_recurse`: `VarNotFound` exactly when
    /// the value depends on a variable that `vars` does not hold, and then no
    /// further node is looked at.
    pub fn accumulate(&self, vars: &Bindings<T>) -> (r: Result<T, TreeError>)
        requires
            self@.evaluable(),
            exact_clone::<T>(),
        ensures
            r is Ok <==> self@.bound_in(vars@),
            match r {
                Ok(v) => self@.eval(vars@) == Some(v) && self@.machine(vars@) == Some(v),
                Err(e) => {
                    &&& self@.eval(vars@) is None
                    &&& e.spec_kind() == TreeErrorKind::VarNotFound
                    &&& e.spec_message() == message_of(TreeErrorKind::VarNotFound)
                },
            },
            r is Ok ==> self@.attained(vars@),
    {
        let mut yeta: Vec<T> = Vec::new();
        let mut it = TreePostIter::start(self, true);
        proof {
            lemma_machine_agrees(self@, vars@);
            lemma_ready(self@);
        }
        loop
            invariant
                it.wf(),
                it.operands_only(),
                exact_clone::<T>(),
                ready(it.remaining(), yeta@.len()),
                run(it.remaining(), vars@, yeta@) == run(self@.order(true), vars@, Seq::empty()),
                run(self@.order(true), vars@, Seq::empty()) == match self@.eval(vars@) {
                    Some(v) => Some(seq![v]),
                    None => None,
                },
                calls_made(it.remaining(), vars@, yeta@) ==> calls_made(
                    self@.order(true),
                    vars@,
                    Seq::empty(),
                ),
            decreases it.remaining().len(),
        {
            match it.next() {
                None => {
                    proof {
                        lemma_value_iff_bound(self@, vars@);
                        lemma_machine_agrees(self@, vars@);
                        lemma_calls_attained(self@, vars@);
                    }
                    return Ok(yeta.pop().unwrap());
                },
                Some(node) => {
                    match node.data() {
                        Expression::Operator(f) => {
                            let minks = match node.children() {
                                Some(m) => m,
                                None => unreached(),
                            };
                            let s = yeta.len() - minks.len();
                            let eta = yeta.split_off(s);
                            let r = f(eta);
                            proof {
                                lemma_call_value(*f, eta, r);
                            }
                            yeta.push(r);
                        },
                        Expression::Variable(v) => match vars.get(v.as_str()) {
                            Some(val) => yeta.push(val.clone()),
                            None => {
                                proof {
                                    lemma_value_iff_bound(self@, vars@);
                                }
                                return Err(TreeError::create(TreeErrorKind::VarNotFound));
                            },
                        },
                        Expression::Constant(c) => yeta.push(c.clone()),
                    }
                },
            }
        }
    }

    /// Evaluates the tree by recursion: an operator is applied to the values
    /// of its operands, taken left to right; a variable has the value that
    /// `vars` gives it; a constant has its own.
    ///
    /// The result is `VarNotFound` exactly when the value depends on a
    /// variable that `vars` does not hold.
    pub fn accumulate_recurse(&self, vars: &Bindings<T>) -> (r: Result<T, TreeError>)
        requires
            self@.evaluable(),
            exact_clone::<T>(),
        ensures
            r is Ok <==> self@.bound_in(vars@),
            match r {
                Ok(v) => self@.eval(vars@) == Some(v),
                Err(e) => {
                    &&& self@.eval(vars@) is None
                    &&& e.spec_kind() == TreeErrorKind::VarNotFound
                    &&& e.spec_message() == message_of(TreeErrorKind::VarNotFound)
                },
            },
            r is Ok ==> self@.attained(vars@),
        decreases self@,
    {
        proof {
            lemma_value_iff_bound(self@, vars@);
        }
        match self.data() {
            Expression::Operator(f) => {
                match self.children() {
                    Some(kinks) => {
                        let mut minks: Vec<T> = Vec::with_capacity(kinks.len());
                        let mut i: usize = 0;
                        while i < kinks.len()
                            invariant
                                i <= kinks.len(),
                                self@.evaluable(),
                                exact_clone::<T>(),
                                self@.operands() == views(kinks@),
                                self@.eval_upto(vars@, i as nat) == Some(minks@),
                                forall|j: int|
                                    0 <= j < i ==> (#[trigger] self@.operands()[j]).attained(vars@),
                            decreases kinks.len() - i,
                        {
                            match kinks[i].accumulate_recurse(vars) {
                                Ok(n) => {
                                    minks.push(n);
                                },
                                Err(e) => {
                                    proof {
                                        assert(self@.eval_upto(vars@, (i + 1) as nat) is None);
                                        lemma_eval_upto_none(
                                            self@,
                                            vars@,
                                            (i + 1) as nat,
                                            self@.operands().len(),
                                        );
                                    }
                                    return Err(e);
                                },
                            }
                            i += 1;
                        }
                        proof {
                            lemma_eval_upto_len(self@, vars@, i as nat);
                        }
                        let r = f(minks);
                        proof {
                            lemma_call_value(*f, minks, r);
                        }
                        Ok(r)
                    },
                    None => unreached(),
                }
            },
            Expression::Variable(v) => match vars.get(v.as_str()) {
                Some(val) => Ok(val.clone()),
                None => Err(TreeError::create(TreeErrorKind::VarNotFound)),
            },
            Expression::Constant(c) => Ok(c.clone()),
        }
    }
}

} // verus!
