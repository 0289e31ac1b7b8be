use ketree::{Expression, Tree};

type Op = fn(Vec<i64>) -> i64;
type Node = Tree<i64, Op>;

fn sum(v: Vec<i64>) -> i64 {
    v.iter().sum()
}

fn constant(c: i64) -> Node {
    Tree::new(Expression::Constant(c))
}

fn variable(name: &str) -> Node {
    Tree::new(Expression::Variable(name.to_string()))
}

fn operator(children: Vec<Node>) -> Node {
    let mut t = Tree::new(Expression::Operator(sum as Op));
    t.link(children);
    t
}

fn show(t: &Node) -> String {
    match t.data() {
        Expression::Operator(_) => format!("op{}", t.children().as_ref().map_or(0, |c| c.len())),
        Expression::Variable(name) => name.clone(),
        Expression::Constant(c) => format!("{}", c),
    }
}

fn walk(t: &Node) -> Vec<String> {
    let mut out = Vec::new();
    let mut it = t.post_iter();
    while let Some(node) = it.next() {
        out.push(show(node));
    }
    out
}

fn recursive_walk(t: &Node, out: &mut Vec<String>) {
    if let Some(kids) = t.children() {
        for k in kids {
            recursive_walk(k, out);
        }
    }
    out.push(show(t));
}

#[test]
fn single_node_is_yielded_once() {
    let t = constant(1);
    let mut it = t.post_iter();
    assert!(std::ptr::eq(it.next().unwrap(), &t));
    assert!(it.next().is_none());
    assert!(it.next().is_none());
}

#[test]
fn children_come_before_their_parent_left_to_right() {
    let t = operator(vec![operator(vec![constant(1), variable("x")]), constant(2), operator(vec![variable("y")])]);
    assert_eq!(walk(&t), vec!["1", "x", "op2", "2", "y", "op1", "op3"]);
}

#[test]
fn walk_is_the_recursive_walk() {
    let t = operator(vec![
        operator(vec![operator(vec![constant(1)]), operator(vec![constant(2), constant(3)])]),
        variable("a"),
        operator(vec![operator(vec![operator(vec![variable("b"), constant(4)])])]),
    ]);
    let mut expected = Vec::new();
    recursive_walk(&t, &mut expected);
    assert_eq!(walk(&t), expected);
    assert_eq!(expected.len(), 13);
}

#[test]
fn root_is_yielded_last_and_then_nothing() {
    let t = operator(vec![constant(1), constant(2)]);
    let mut it = t.post_iter();
    let mut last = None;
    let mut n = 0;
    while let Some(node) = it.next() {
        last = Some(node);
        n += 1;
    }
    assert_eq!(n, 3);
    assert!(std::ptr::eq(last.unwrap(), &t));
    assert!(it.next().is_none());
}

#[test]
fn every_occurrence_of_a_shared_subtree_is_visited() {
    let shared = operator(vec![constant(1), constant(2)]);
    let t = operator(vec![shared.clone(), shared.clone(), shared]);
    assert_eq!(walk(&t), vec!["1", "2", "op2", "1", "2", "op2", "1", "2", "op2", "op3"]);
}

#[test]
fn walk_goes_into_links_below_leaves() {
    let mut c = constant(7);
    c.link(vec![variable("under"), constant(8)]);
    let t = operator(vec![c]);
    assert_eq!(walk(&t), vec!["under", "8", "7", "op1"]);
}

#[test]
fn empty_link_list_is_no_child() {
    let t = operator(vec![]);
    assert_eq!(walk(&t), vec!["op0"]);
    let unlinked: Node = Tree::new(Expression::Operator(sum as Op));
    assert_eq!(walk(&unlinked), vec!["op0"]);
}

#[test]
fn a_new_walk_starts_over() {
    let t = operator(vec![constant(1), constant(2)]);
    let mut first = t.post_iter();
    first.next();
    first.next();
    assert_eq!(walk(&t), vec!["1", "2", "op2"]);
    assert_eq!(show(first.next().unwrap()), "op2");
    assert!(first.next().is_none());
}

#[test]
fn deep_chain_is_walked_without_recursion() {
    let mut t = constant(0);
    for _ in 0..200_000 {
        t = operator(vec![t]);
    }
    let mut it = t.post_iter();
    let mut n = 0;
    while it.next().is_some() {
        n += 1;
    }
    assert_eq!(n, 200_001);
    std::mem::forget(t);
}
