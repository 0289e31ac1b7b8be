//! Where a walk visits each node: the place of a node in the tree is the
//! path of child indices that leads to it from the root, and the walk gives
//! each place one position.

use crate::model::Term;
use vstd::prelude::*;

verus! {

impl<T> Term<T> {
    /// `path` leads from this node to a node that the walk goes into.
    pub open spec fn has_place(self, operands_only: bool, path: Seq<int>) -> bool
        decreases path.len(),
    {
        path.len() == 0 || {
            &&& 0 <= path[0] < self.below(operands_only).len()
            &&& self.below(operands_only)[path[0]].has_place(operands_only, path.skip(1))
        }
    }

    /// The node that `path` leads to.
    pub open spec fn node_at(self, operands_only: bool, path: Seq<int>) -> Term<T>
        decreases path.len(),
    {
        if path.len() == 0 {
            self
        } else {
            self.below(operands_only)[path[0]].node_at(operands_only, path.skip(1))
        }
    }

    /// The walk of the first `k` nodes below this one.
    pub open spec fn order_before(self, operands_only: bool, k: nat) -> Seq<Term<T>>
        decreases k,
    {
        if k == 0 || k > self.below(operands_only).len() {
            Seq::empty()
        } else {
            self.order_before(operands_only, (k - 1) as nat) + self.below(operands_only)[k
                - 1].order(operands_only)
        }
    }

    /// The position in the walk of this node at which the node at `path` is
    /// visited.
    pub open spec fn visit(self, operands_only: bool, path: Seq<int>) -> int
        decreases path.len(),
    {
        if path.len() == 0 {
            self.order(operands_only).len() - 1
        } else {
            self.order_before(operands_only, path[0] as nat).len() + self.below(
                operands_only,
            )[path[0]].visit(operands_only, path.skip(1))
        }
    }
}

/// The walk of a node is the walk of the first `k` nodes below it and then
/// the walk from the `k`-th on.
pub proof fn lemma_order_split<T>(t: Term<T>, operands_only: bool, k: nat)
    requires
        k <= t.below(operands_only).len(),
    ensures
        t.order(operands_only) == t.order_before(operands_only, k) + t.order_from(
            operands_only,
            k,
        ),
    decreases k,
{
    let m = operands_only;
    if k == 0 {
        assert(t.order(m) =~= t.order_before(m, 0) + t.order_from(m, 0));
    } else {
        lemma_order_split(t, m, (k - 1) as nat);
        let j = (k - 1) as nat;
        assert(t.order_from(m, j) == t.below(m)[j as int].order(m) + t.order_from(m, k));
        assert(t.order(m) =~= t.order_before(m, k) + t.order_from(m, k));
    }
}

/// The walk of a node ends with the node itself, after the walks of all the
/// nodes below it.
pub proof fn lemma_order_ends_with_self<T>(t: Term<T>, operands_only: bool)
    ensures
        t.order(operands_only) == t.order_before(
            operands_only,
            t.below(operands_only).len(),
        ).push(t),
{
    let m = operands_only;
    let n = t.below(m).len();
    lemma_order_split(t, m, n);
    assert(t.order_from(m, n) =~= seq![t]);
    assert(t.order(m) =~= t.order_before(m, n).push(t));
}

/// The walks of the nodes below a node follow one another: that of the
/// `j`-th begins where those of the first `j` end, and ends before that of
/// any later one begins.
pub proof fn lemma_order_before_grows<T>(
    t: Term<T>,
    operands_only: bool,
    j: nat,
    k: nat,
)
    requires
        j < k <= t.below(operands_only).len(),
    ensures
        t.order_before(operands_only, j).len() + t.below(operands_only)[j as int].order(
            operands_only,
        ).len() <= t.order_before(operands_only, k).len(),
        forall|x: int|
            0 <= x < t.below(operands_only)[j as int].order(operands_only).len()
                ==> t.order_before(operands_only, k)[t.order_before(operands_only, j).len() + x]
                == #[trigger] t.below(operands_only)[j as int].order(operands_only)[x],
    decreases k,
{
    let m = operands_only;
    if j + 1 < k {
        lemma_order_before_grows(t, m, j, (k - 1) as nat);
    }
}

/// Every place is visited: the position of a place lies in the walk, and
/// the walk holds at that position the node that is at the place.
pub proof fn lemma_visit_in_order<T>(
    t: Term<T>,
    operands_only: bool,
    path: Seq<int>,
)
    requires
        t.has_place(operands_only, path),
    ensures
        0 <= t.visit(operands_only, path) < t.order(operands_only).len(),
        t.order(operands_only)[t.visit(operands_only, path)] == t.node_at(operands_only, path),
        path.len() > 0 ==> t.visit(operands_only, path) < t.order(operands_only).len() - 1,
    decreases path.len(),
{
    let m = operands_only;
    let n = t.below(m).len();
    lemma_order_ends_with_self(t, m);
    if path.len() > 0 {
        let j = path[0] as nat;
        let child = t.below(m)[j as int];
        lemma_visit_in_order(child, m, path.skip(1));
        lemma_order_before_grows(t, m, j, n);
    }
}

/// No two places are visited at one position.
pub proof fn lemma_visit_once<T>(
    t: Term<T>,
    operands_only: bool,
    p: Seq<int>,
    q: Seq<int>,
)
    requires
        t.has_place(operands_only, p),
        t.has_place(operands_only, q),
        t.visit(operands_only, p) == t.visit(operands_only, q),
    ensures
        p == q,
    decreases p.len(),
{
    let m = operands_only;
    lemma_visit_in_order(t, m, p);
    lemma_visit_in_order(t, m, q);
    if p.len() == 0 || q.len() == 0 {
        assert(p =~= q);
    } else {
        let i = p[0] as nat;
        let j = q[0] as nat;
        lemma_visit_in_order(t.below(m)[i as int], m, p.skip(1));
        lemma_visit_in_order(t.below(m)[j as int], m, q.skip(1));
        if i < j {
            lemma_order_before_grows(t, m, i, j);
        } else if j < i {
            lemma_order_before_grows(t, m, j, i);
        } else {
            lemma_visit_once(t.below(m)[i as int], m, p.skip(1), q.skip(1));
            assert(p =~= seq![p[0]] + p.skip(1));
            assert(q =~= seq![q[0]] + q.skip(1));
        }
    }
}

/// Every position of the walk is the visit of a place: the walk yields
/// nothing but the nodes of the tree.
pub proof fn lemma_visit_covers<T>(
    t: Term<T>,
    operands_only: bool,
    at: int,
) -> (path: Seq<int>)
    requires
        0 <= at < t.order(operands_only).len(),
    ensures
        t.has_place(operands_only, path),
        t.visit(operands_only, path) == at,
    decreases t,
{
    let m = operands_only;
    let n = t.below(m).len();
    lemma_order_ends_with_self(t, m);
    if at == t.order(m).len() - 1 {
        Seq::empty()
    } else {
        let j = lemma_find_below(t, m, at, n);
        let child = t.below(m)[j as int];
        let sub = lemma_visit_covers(child, m, at - t.order_before(m, j).len());
        let path = seq![j as int] + sub;
        assert(path.skip(1) =~= sub);
        path
    }
}

/// A position before the end of the walks of the first `k` nodes below a
/// node lies in the walk of one of them.
proof fn lemma_find_below<T>(
    t: Term<T>,
    operands_only: bool,
    at: int,
    k: nat,
) -> (j: nat)
    requires
        k <= t.below(operands_only).len(),
        0 <= at < t.order_before(operands_only, k).len(),
    ensures
        j < k,
        t.order_before(operands_only, j).len() <= at < t.order_before(operands_only, j).len()
            + t.below(operands_only)[j as int].order(operands_only).len(),
    decreases k,
{
    let m = operands_only;
    if at < t.order_before(m, (k - 1) as nat).len() {
        lemma_find_below(t, m, at, (k - 1) as nat)
    } else {
        (k - 1) as nat
    }
}

/// A node is visited after every node below it: the node at a place comes
/// later in the walk than the node at any place one step further down.
pub proof fn lemma_child_before_parent<T>(
    t: Term<T>,
    operands_only: bool,
    path: Seq<int>,
    i: int,
)
    requires
        t.has_place(operands_only, path.push(i)),
    ensures
        t.has_place(operands_only, path),
        t.visit(operands_only, path.push(i)) < t.visit(operands_only, path),
    decreases path.len(),
{
    let m = operands_only;
    let longer = path.push(i);
    if path.len() == 0 {
        assert(longer.skip(1) =~= Seq::<int>::empty());
        lemma_visit_in_order(t, m, longer);
    } else {
        assert(longer[0] == path[0]);
        assert(longer.skip(1) =~= path.skip(1).push(i));
        lemma_child_before_parent(t.below(m)[path[0]], m, path.skip(1), i);
    }
}

} // verus!
