//! What holds of evaluation and folding on every tree.

use crate::model::{all_constants, constants_of, leaf, lemma_eval_upto_constants, Label, Term};
use vstd::prelude::*;

verus! {

/// Two nodes whose operands have the same values, one by one, have the same
/// runs of values.
proof fn lemma_eval_upto_same<T>(
    a: Term<T>,
    b: Term<T>,
    env: Map<Seq<char>, T>,
    k: nat,
)
    requires
        a.operands().len() == b.operands().len(),
        forall|i: int|
            0 <= i < a.operands().len() ==> (#[trigger] a.operands()[i]).eval(env)
                == b.operands()[i].eval(env),
    ensures
        a.eval_upto(env, k) == b.eval_upto(env, k),
    decreases k,
{
    if 0 < k <= a.operands().len() {
        lemma_eval_upto_same(a, b, env, (k - 1) as nat);
        assert(a.operands()[k - 1].eval(env) == b.operands()[k - 1].eval(env));
    }
}

/// Folding changes no value: under every map the folded tree evaluates to
/// what the tree evaluates to, and fails where the tree fails.
pub proof fn lemma_reduced_keeps_value<T>(
    t: Term<T>,
    env: Map<Seq<char>, T>,
)
    ensures
        t.reduced().eval(env) == t.eval(env),
    decreases t,
{
    match t.label {
        Label::Operator(_) => {
            let n = t.operands().len();
            let kids = t.reduced_operands();
            let kept = Term { label: t.label, args: Some(kids) };
            assert(kept.operands() == kids);
            assert forall|i: int| 0 <= i < n implies (#[trigger] kept.operands()[i]).eval(env)
                == t.operands()[i].eval(env) by {
                lemma_reduced_keeps_value(t.operands()[i], env);
            }
            lemma_eval_upto_same(kept, t, env, n);
            if all_constants(kids) {
                lemma_eval_upto_constants(kept, env, n);
                assert(constants_of(kids).take(n as int) =~= constants_of(kids));
            }
        },
        _ => {},
    }
}

/// Folding twice gives what folding once gives.
pub proof fn lemma_reduced_idempotent<T>(t: Term<T>)
    ensures
        t.reduced().reduced() == t.reduced(),
    decreases t,
{
    match t.label {
        Label::Operator(_) => {
            let kids = t.reduced_operands();
            if !all_constants(kids) {
                let kept = t.reduced();
                assert(kept.operands() == kids);
                assert forall|i: int| 0 <= i < kids.len() implies kept.reduced_operands()[i]
                    == kids[i] by {
                    lemma_reduced_idempotent(t.operands()[i]);
                }
                assert(kept.reduced_operands() =~= kids);
            }
        },
        _ => {},
    }
}

/// A tree that can be evaluated can still be evaluated once it is folded.
pub proof fn lemma_reduced_evaluable<T>(t: Term<T>)
    requires
        t.evaluable(),
    ensures
        t.reduced().evaluable(),
    decreases t,
{
    match t.label {
        Label::Operator(_) => {
            let kids = t.reduced_operands();
            if !all_constants(kids) {
                let kept = t.reduced();
                assert(kept.operands() == kids);
                assert forall|i: int| 0 <= i < kids.len() implies (
                #[trigger] kept.operands()[i]).evaluable() by {
                    lemma_reduced_evaluable(t.operands()[i]);
                }
            }
        },
        _ => {},
    }
}

/// A tree has a value under `env` exactly when `env` holds every variable
/// that the value depends on.
pub proof fn lemma_value_iff_bound<T>(t: Term<T>, env: Map<Seq<char>, T>)
    ensures
        t.eval(env) is Some <==> t.bound_in(env),
    decreases t,
{
    match t.label {
        Label::Operator(_) => {
            let n = t.operands().len();
            assert forall|i: int| 0 <= i < n implies ((#[trigger] t.operands()[i]).eval(env) is Some
                <==> t.operands()[i].bound_in(env)) by {
                lemma_value_iff_bound(t.operands()[i], env);
            }
            lemma_eval_upto_all(t, env, n);
        },
        _ => {},
    }
}

/// The first `k` operands have values exactly when each of them has one.
proof fn lemma_eval_upto_all<T>(
    t: Term<T>,
    env: Map<Seq<char>, T>,
    k: nat,
)
    requires
        k <= t.operands().len(),
    ensures
        t.eval_upto(env, k) is Some <==> forall|i: int|
            0 <= i < k ==> (#[trigger] t.operands()[i]).eval(env) is Some,
    decreases k,
{
    if k > 0 {
        lemma_eval_upto_all(t, env, (k - 1) as nat);
        if t.eval_upto(env, k) is Some {
            assert forall|i: int| 0 <= i < k implies (#[trigger] t.operands()[i]).eval(env)
                is Some by {}
        } else if t.eval_upto(env, (k - 1) as nat) is Some {
            assert(!(t.operands()[k - 1].eval(env) is Some));
        }
    }
}

/// The values of the operands of `t`, for operands that have values.
pub open spec fn operand_values<T>(t: Term<T>, env: Map<Seq<char>, T>) -> Seq<T> {
    Seq::new(t.operands().len(), |i: int| t.operands()[i].eval(env)->0)
}

/// The run of values of the first `k` operands holds the value of each.
proof fn lemma_eval_upto_values<T>(t: Term<T>, env: Map<Seq<char>, T>, k: nat)
    requires
        k <= t.operands().len(),
        t.eval_upto(env, k) is Some,
    ensures
        t.eval_upto(env, k)->0 == operand_values(t, env).take(k as int),
    decreases k,
{
    if k > 0 {
        lemma_eval_upto_values(t, env, (k - 1) as nat);
        let vs = operand_values(t, env);
        assert(vs.take(k - 1).push(vs[k - 1]) =~= vs.take(k as int));
    } else {
        assert(operand_values(t, env).take(0) =~= Seq::<T>::empty());
    }
}

/// An operator has a value exactly when each of its operands has one, and
/// the value is then that of the operator on the values of the operands, in
/// the order in which they are linked.
pub proof fn lemma_operator_value<T>(t: Term<T>, env: Map<Seq<char>, T>)
    requires
        t.label is Operator,
    ensures
        t.eval(env) is Some <==> forall|i: int|
            0 <= i < t.operands().len() ==> (#[trigger] t.operands()[i]).eval(env) is Some,
        t.eval(env) is Some ==> t.eval(env) == Some(
            t.label->Operator_0.value(operand_values(t, env)),
        ),
{
    let n = t.operands().len();
    lemma_eval_upto_all(t, env, n);
    if t.eval_upto(env, n) is Some {
        lemma_eval_upto_values(t, env, n);
        assert(operand_values(t, env).take(n as int) =~= operand_values(t, env));
    }
}

/// A tree without variables folds to a constant: the value that the tree has
/// under every map. An operator without variables folds to that constant
/// alone, with nothing linked below it.
pub proof fn lemma_ground_folds<T>(t: Term<T>, env: Map<Seq<char>, T>)
    requires
        t.ground(),
    ensures
        t.eval(env) is Some,
        t.reduced().label == Label::<T>::Constant(t.eval(env)->0),
        t.label is Operator ==> t.reduced() == leaf(Label::<T>::Constant(t.eval(env)->0)),
        t.label is Constant ==> t.reduced() == t,
    decreases t,
{
    match t.label {
        Label::Operator(_) => {
            let n = t.operands().len();
            let kids = t.reduced_operands();
            let kept = Term { label: t.label, args: Some(kids) };
            assert(kept.operands() == kids);
            assert forall|i: int| 0 <= i < n implies (#[trigger] kids[i]).label is Constant by {
                lemma_ground_folds(t.operands()[i], env);
            }
            assert forall|i: int| 0 <= i < n implies (#[trigger] kept.operands()[i]).eval(env)
                == t.operands()[i].eval(env) by {
                lemma_reduced_keeps_value(t.operands()[i], env);
            }
            lemma_eval_upto_same(kept, t, env, n);
            lemma_eval_upto_constants(kept, env, n);
            assert(constants_of(kids).take(n as int) =~= constants_of(kids));
        },
        _ => {},
    }
}

} // verus!
