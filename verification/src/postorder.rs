//! A walk over a tree that yields every node after the nodes below it,
//! without recursion: the path from the root to the current node is kept on
//! a stack, beside the index of the next child to go into at each level.

use crate::model::Term;
use crate::tree::{views, Expression, Tree};
use vstd::prelude::*;

verus! {

/// What the entries `0..k` of the path still yield once everything above
/// them on the stack is done: for each, the children after the one the walk
/// is in, and the node itself.
pub open spec fn rest_of_path<T>(
    path: Seq<Term<T>>,
    next: Seq<usize>,
    operands_only: bool,
    k: nat,
) -> Seq<Term<T>>
    decreases k,
{
    if k == 0 || k > path.len() || k > next.len() {
        Seq::empty()
    } else {
        path[k - 1].order_from(operands_only, (next[k - 1] + 1) as nat) + rest_of_path(
            path,
            next,
            operands_only,
            (k - 1) as nat,
        )
    }
}

/// What a walk with this path, and these indices beside it, has yet to
/// yield: at the top the children from the next one on and the node itself,
/// then the rest of the path.
pub open spec fn yet_to_come<T>(
    path: Seq<Term<T>>,
    next: Seq<usize>,
    operands_only: bool,
) -> Seq<Term<T>> {
    if path.len() == 0 {
        Seq::empty()
    } else {
        path.last().order_from(operands_only, next.last() as nat) + rest_of_path(
            path,
            next,
            operands_only,
            (path.len() - 1) as nat,
        )
    }
}

/// One index for each node of the path: below the top that of the child the
/// walk is in, at the top that of the next child to go into.
pub open spec fn in_step<T>(
    path: Seq<Term<T>>,
    next: Seq<usize>,
    operands_only: bool,
) -> bool {
    &&& path.len() == next.len()
    &&& forall|k: int|
        0 <= k < next.len() - 1 ==> (#[trigger] next[k]) < path[k].below(operands_only).len()
    &&& next.len() > 0 ==> next.last() <= path.last().below(operands_only).len()
    &&& forall|k: int|
        0 <= k < path.len() ==> (#[trigger] path[k]).below(operands_only).len() <= usize::MAX
}

/// `rest_of_path` reads the first `k` entries of the two stacks only.
proof fn lemma_rest_of_path_prefix<T>(
    p1: Seq<Term<T>>,
    n1: Seq<usize>,
    p2: Seq<Term<T>>,
    n2: Seq<usize>,
    operands_only: bool,
    k: nat,
)
    requires
        k <= p1.len(),
        k <= n1.len(),
        k <= p2.len(),
        k <= n2.len(),
        forall|j: int| 0 <= j < k ==> #[trigger] p1[j] == p2[j],
        forall|j: int| 0 <= j < k ==> #[trigger] n1[j] == n2[j],
    ensures
        rest_of_path(p1, n1, operands_only, k) == rest_of_path(p2, n2, operands_only, k),
    decreases k,
{
    if k > 0 {
        lemma_rest_of_path_prefix(p1, n1, p2, n2, operands_only, (k - 1) as nat);
    }
}

/// Going into the next child of the node at the top changes nothing in what
/// is yet to come.
proof fn lemma_descend<T>(
    path: Seq<Term<T>>,
    next: Seq<usize>,
    operands_only: bool,
)
    requires
        in_step(path, next, operands_only),
        path.len() > 0,
        next.last() < path.last().below(operands_only).len(),
        path.last().below(operands_only)[next.last() as int].below(operands_only).len()
            <= usize::MAX,
    ensures
        ({
            let child = path.last().below(operands_only)[next.last() as int];
            &&& in_step(path.push(child), next.push(0), operands_only)
            &&& yet_to_come(path.push(child), next.push(0), operands_only) == yet_to_come(
                path,
                next,
                operands_only,
            )
        }),
{
    let m = operands_only;
    let n = path.len();
    let top = path.last();
    let i = next.last();
    let child = top.below(m)[i as int];
    let path2 = path.push(child);
    let next2 = next.push(0);
    assert(top.order_from(m, i as nat) == child.order(m) + top.order_from(m, (i + 1) as nat));
    assert(child.order(m) == child.order_from(m, 0));
    assert(path2[n - 1] == top && next2[n - 1] == i);
    assert(rest_of_path(path2, next2, m, n as nat) == top.order_from(m, (i + 1) as nat)
        + rest_of_path(path2, next2, m, (n - 1) as nat));
    lemma_rest_of_path_prefix(path2, next2, path, next, m, (n - 1) as nat);
    assert(yet_to_come(path2, next2, m) =~= yet_to_come(path, next, m));
    assert forall|k: int| 0 <= k < next2.len() - 1 implies (#[trigger] next2[k]) < path2[k].below(
        m,
    ).len() by {
        assert(next2[k] == next[k]);
    }
    assert forall|k: int| 0 <= k < path2.len() implies (#[trigger] path2[k]).below(m).len()
        <= usize::MAX by {
        if k < n {
            assert(path2[k] == path[k]);
        }
    }
}

/// The path and the indices once the node at the top has been yielded: the
/// node is gone, and the index of the node under it has moved on by one.
pub open spec fn stepped_up(next: Seq<usize>) -> Seq<usize> {
    if next.len() >= 2 {
        next.drop_last().update(next.len() - 2, (next[next.len() - 2] + 1) as usize)
    } else {
        next.drop_last()
    }
}

/// With all its children done, the node at the top is what comes next, and
/// then what is yet to come of the path under it.
proof fn lemma_ascend<T>(
    path: Seq<Term<T>>,
    next: Seq<usize>,
    operands_only: bool,
)
    requires
        in_step(path, next, operands_only),
        path.len() > 0,
        next.last() >= path.last().below(operands_only).len(),
    ensures
        yet_to_come(path, next, operands_only).len() > 0,
        yet_to_come(path, next, operands_only)[0] == path.last(),
        in_step(path.drop_last(), stepped_up(next), operands_only),
        yet_to_come(path.drop_last(), stepped_up(next), operands_only) == yet_to_come(
            path,
            next,
            operands_only,
        ).skip(1),
{
    let m = operands_only;
    let n = path.len();
    let top = path.last();
    let path2 = path.drop_last();
    let next2 = stepped_up(next);
    assert(top.order_from(m, next.last() as nat) =~= seq![top]);
    if n >= 2 {
        let up = next[n - 2];
        assert(up < path[n - 2].below(m).len());
        assert(path[n - 2].below(m).len() <= usize::MAX);
        assert(next2.last() == up + 1);
        assert(path2.last() == path[n - 2]);
        assert(rest_of_path(path, next, m, (n - 1) as nat) == path[n - 2].order_from(
            m,
            (up + 1) as nat,
        ) + rest_of_path(path, next, m, (n - 2) as nat));
        lemma_rest_of_path_prefix(path2, next2, path, next, m, (n - 2) as nat);
        assert forall|k: int| 0 <= k < next2.len() - 1 implies (#[trigger] next2[k])
            < path2[k].below(m).len() by {
            assert(next2[k] == next[k]);
        }
    }
    assert(yet_to_come(path2, next2, m) =~= yet_to_come(path, next, m).skip(1));
    assert forall|k: int| 0 <= k < path2.len() implies (#[trigger] path2[k]).below(m).len()
        <= usize::MAX by {
        assert(path2[k] == path[k]);
    }
}

/// A walk in post-order, as far as it has come.
pub struct TreePostIter<'a, T, F> {
    pos_stack: Vec<usize>,
    tree_stack: Vec<&'a Tree<T, F>>,
    operands_only: bool,
}

/// The nodes below `node` that a walk goes into, if there are any.
fn nodes_below<T: Clone + core::fmt::Debug, F: Fn(Vec<T>) -> T + Copy>(
    node: &Tree<T, F>,
    operands_only: bool,
) -> (r: Option<&Vec<Tree<T, F>>>)
    ensures
        match r {
            Some(v) => node@.below(operands_only) == views(v@),
            None => node@.below(operands_only).len() == 0,
        },
{
    match node.children() {
        Some(v) => {
            if operands_only {
                match node.data() {
                    Expression::Operator(_) => Some(v),
                    _ => None,
                }
            } else {
                Some(v)
            }
        },
        None => None,
    }
}

impl<T: Clone + core::fmt::Debug, F: Fn(Vec<T>) -> T + Copy> Tree<T, F> {
    /// A walk over every node of the tree, each after all of its children,
    /// the children left to right.
    pub fn post_iter(&self) -> (it: TreePostIter<'_, T, F>)
        ensures
            it.wf(),
            !it.operands_only(),
            it.remaining() == self@.post_order(),
    {
        TreePostIter::start(self, false)
    }
}

impl<'a, T: Clone + core::fmt::Debug, F: Fn(Vec<T>) -> T + Copy> TreePostIter<'a, T, F> {
    /// The models of the nodes on the path, root first.
    pub closed spec fn path(&self) -> Seq<Term<T>> {
        Seq::new(self.tree_stack@.len(), |i: int| self.tree_stack@[i]@)
    }

    /// Whether the walk goes into operands only, or into all children.
    pub closed spec fn operands_only(&self) -> bool {
        self.operands_only
    }

    /// The indices that stand beside the path.
    pub closed spec fn indices(&self) -> Seq<usize> {
        self.pos_stack@
    }

    /// The two stacks go together: see `in_step`.
    pub open spec fn wf(&self) -> bool {
        in_step(self.path(), self.indices(), self.operands_only())
    }

    /// The nodes that the walk has yet to yield, in order.
    pub open spec fn remaining(&self) -> Seq<Term<T>> {
        yet_to_come(self.path(), self.indices(), self.operands_only())
    }

    /// A walk that starts at `root`.
    pub(crate) fn start(root: &'a Tree<T, F>, operands_only: bool) -> (it: Self)
        ensures
            it.wf(),
            it.operands_only() == operands_only,
            it.remaining() == root@.order(operands_only),
    {
        let mut ps: Vec<usize> = Vec::new();
        ps.push(0);
        let mut ts: Vec<&'a Tree<T, F>> = Vec::new();
        ts.push(root);
        let it = TreePostIter { pos_stack: ps, tree_stack: ts, operands_only };
        proof {
            assert(it.path().last() == root@);
            root.lemma_children_fit();
            assert(it.remaining() =~= root@.order(operands_only));
        }
        it
    }

    /// The next node of the walk, or `None` once the root has been yielded.
    /// It comes after every node below it that the walk goes into.
    pub fn next(&mut self) -> (r: Option<&'a Tree<T, F>>)
        requires
            old(self).wf(),
        ensures
            final(self).wf(),
            final(self).operands_only() == old(self).operands_only(),
            match r {
                Some(node) => {
                    &&& old(self).remaining().len() > 0
                    &&& node@ == old(self).remaining()[0]
                    &&& final(self).remaining() == old(self).remaining().skip(1)
                },
                None => old(self).remaining().len() == 0 && final(self).remaining().len() == 0,
            },
    {
        loop
            invariant
                self.wf(),
                self.operands_only == old(self).operands_only,
                self.remaining() == old(self).remaining(),
            decreases self.path().last(),
        {
            let n = self.tree_stack.len();
            if n == 0 {
                return None;
            }
            let top: &'a Tree<T, F> = self.tree_stack[n - 1];
            let i = self.pos_stack[n - 1];
            let ghost before = *self;
            assert(before.path().last() == top@);
            let kids: Option<&'a Vec<Tree<T, F>>> = nodes_below(top, self.operands_only);
            let more = match kids {
                Some(v) => {
                    assert(views(v@).len() == v@.len());
                    i < v.len()
                },
                None => false,
            };
            if more {
                let child: &'a Tree<T, F> = &kids.unwrap()[i];
                self.tree_stack.push(child);
                self.pos_stack.push(0);
                proof {
                    assert(child@ == top@.below(self.operands_only)[i as int]);
                    child.lemma_children_fit();
                    lemma_descend(before.path(), before.indices(), self.operands_only);
                    assert(self.path() =~= before.path().push(child@));
                }
            } else {
                self.tree_stack.pop();
                self.pos_stack.pop();
                proof {
                    lemma_ascend(before.path(), before.indices(), self.operands_only);
                }
                if n >= 2 {
                    let up = self.pos_stack[n - 2];
                    assert(up == before.indices()[n - 2]);
                    self.pos_stack.set(n - 2, up + 1);
                }
                proof {
                    assert(self.path() =~= before.path().drop_last());
                    assert(self.indices() =~= stepped_up(before.indices()));
                }
                return Some(top);
            }
        }
    }
}

} // verus!
