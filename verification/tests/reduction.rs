use ketree::{Bindings, Expression, Tree};

type Op = fn(Vec<i64>) -> i64;
type Node = Tree<i64, Op>;

fn sum(v: Vec<i64>) -> i64 {
    v.iter().sum()
}

fn product(v: Vec<i64>) -> i64 {
    v.iter().product()
}

fn constant(c: i64) -> Node {
    Tree::new(Expression::Constant(c))
}

fn variable(name: &str) -> Node {
    Tree::new(Expression::Variable(name.to_string()))
}

fn operator(f: Op, children: Vec<Node>) -> Node {
    let mut t = Tree::new(Expression::Operator(f));
    t.link(children);
    t
}

fn count(t: &Node) -> usize {
    let mut it = t.post_iter();
    let mut n = 0;
    while it.next().is_some() {
        n += 1;
    }
    n
}

fn constant_value(t: &Node) -> Option<i64> {
    match t.data() {
        Expression::Constant(c) => Some(*c),
        _ => None,
    }
}

fn is_operator(t: &Node) -> bool {
    matches!(t.data(), Expression::Operator(_))
}

fn variable_name(t: &Node) -> Option<String> {
    match t.data() {
        Expression::Variable(name) => Some(name.clone()),
        _ => None,
    }
}

fn same_shape(a: &Node, b: &Node) -> bool {
    let same_data = match (a.data(), b.data()) {
        (Expression::Operator(f), Expression::Operator(g)) => *f as usize == *g as usize,
        (Expression::Variable(x), Expression::Variable(y)) => x == y,
        (Expression::Constant(x), Expression::Constant(y)) => x == y,
        _ => false,
    };
    let same_links = match (a.children(), b.children()) {
        (Some(x), Some(y)) => x.len() == y.len() && x.iter().zip(y.iter()).all(|(p, q)| same_shape(p, q)),
        (None, None) => true,
        _ => false,
    };
    same_data && same_links
}

#[test]
fn sum_of_constants_folds_to_one_constant() {
    let mut t = operator(sum, vec![constant(3), constant(4)]);
    assert_eq!(count(&t), 3);
    t.reduce();
    assert_eq!(constant_value(&t), Some(7));
    assert!(t.children().is_none());
    assert_eq!(count(&t), 1);
}

#[test]
fn variable_keeps_its_operator_from_folding() {
    let mut t = operator(sum, vec![operator(product, vec![constant(2), constant(3)]), variable("x")]);
    t.reduce();
    assert!(is_operator(&t));
    let kids = t.children().as_ref().unwrap();
    assert_eq!(kids.len(), 2);
    assert_eq!(constant_value(&kids[0]), Some(6));
    assert!(kids[0].children().is_none());
    assert_eq!(variable_name(&kids[1]), Some("x".to_string()));
    assert_eq!(count(&t), 3);
}

#[test]
fn variable_deep_down_keeps_every_operator_above_it() {
    let mut t = operator(
        sum,
        vec![
            operator(product, vec![operator(sum, vec![variable("x"), constant(1)]), constant(2)]),
            operator(sum, vec![constant(1), constant(1)]),
        ],
    );
    t.reduce();
    assert!(is_operator(&t));
    let kids = t.children().as_ref().unwrap();
    assert!(is_operator(&kids[0]));
    assert!(is_operator(&kids[0].children().as_ref().unwrap()[0]));
    assert_eq!(constant_value(&kids[1]), Some(2));
    assert_eq!(count(&t), 7);
}

#[test]
fn folding_twice_is_folding_once() {
    let mut once = operator(
        sum,
        vec![operator(product, vec![constant(2), constant(3)]), variable("x"), operator(sum, vec![constant(1), variable("y")])],
    );
    once.reduce();
    let mut twice = once.clone();
    twice.reduce();
    assert!(same_shape(&once, &twice));

    let mut ground = operator(sum, vec![constant(1), operator(product, vec![constant(2), constant(5)])]);
    ground.reduce();
    let mut again = ground.clone();
    again.reduce();
    assert!(same_shape(&ground, &again));
    assert_eq!(constant_value(&again), Some(11));
}

#[test]
fn tree_without_variables_folds_to_its_value() {
    let t = operator(
        product,
        vec![operator(sum, vec![constant(1), constant(2), constant(3)]), operator(sum, vec![constant(4)]), constant(5)],
    );
    let value = t.accumulate(&Bindings::new()).unwrap();
    assert_eq!(value, 120);
    let mut folded = t.clone();
    folded.reduce();
    assert_eq!(constant_value(&folded), Some(value));
    assert!(folded.children().is_none());
}

#[test]
fn folding_keeps_the_value() {
    let t = operator(
        sum,
        vec![operator(product, vec![constant(2), constant(3)]), variable("x"), operator(product, vec![variable("y"), operator(sum, vec![constant(1), constant(1)])])],
    );
    let mut folded = t.clone();
    folded.reduce();
    let mut b = Bindings::new();
    b.insert("x".to_string(), 10);
    b.insert("y".to_string(), 7);
    assert_eq!(t.accumulate(&b).unwrap(), 6 + 10 + 14);
    assert_eq!(folded.accumulate(&b).unwrap(), 30);
    assert_eq!(folded.accumulate_recurse(&b).unwrap(), 30);
    let mut partial = Bindings::new();
    partial.insert("x".to_string(), 10);
    assert!(t.accumulate(&partial).is_err());
    assert!(folded.accumulate(&partial).is_err());
}

#[test]
fn leaves_stay_as_they_are() {
    let mut c = constant(5);
    c.reduce();
    assert_eq!(constant_value(&c), Some(5));
    assert!(c.children().is_none());
    let mut v = variable("x");
    v.reduce();
    assert_eq!(variable_name(&v), Some("x".to_string()));
    let mut linked = constant(5);
    linked.link(vec![constant(1), variable("z")]);
    linked.reduce();
    assert_eq!(constant_value(&linked), Some(5));
    assert_eq!(linked.children().as_ref().unwrap().len(), 2);
}

#[test]
fn constant_with_links_counts_as_a_constant() {
    let mut c = constant(5);
    c.link(vec![variable("z")]);
    let mut t = operator(sum, vec![c, constant(1)]);
    t.reduce();
    assert_eq!(constant_value(&t), Some(6));
    assert!(t.children().is_none());
}
