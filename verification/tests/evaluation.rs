use ketree::{Bindings, Expression, Tree, TreeErrorKind};

type Op = fn(Vec<i64>) -> i64;
type Node = Tree<i64, Op>;

fn sum(v: Vec<i64>) -> i64 {
    v.iter().sum()
}

fn product(v: Vec<i64>) -> i64 {
    v.iter().product()
}

fn minus(v: Vec<i64>) -> i64 {
    v[0] - v[1]
}

fn constant(c: i64) -> Node {
    Tree::new(Expression::Constant(c))
}

fn variable(name: &str) -> Node {
    Tree::new(Expression::Variable(name.to_string()))
}

fn operator(f: Op, children: Vec<Node>) -> Node {
    let mut t = Tree::new(Expression::Operator(f));
    t.link(children);
    t
}

fn bind(pairs: &[(&str, i64)]) -> Bindings<i64> {
    let mut b = Bindings::new();
    for (name, value) in pairs {
        b.insert(name.to_string(), *value);
    }
    b
}

#[test]
fn sum_of_constant_and_variable() {
    let t = operator(sum, vec![constant(3), variable("x")]);
    assert_eq!(t.accumulate(&bind(&[("x", 2)])).unwrap(), 5);
    assert_eq!(t.accumulate_recurse(&bind(&[("x", 2)])).unwrap(), 5);
}

#[test]
fn unbound_variable_is_var_not_found() {
    let t = operator(sum, vec![constant(3), variable("x")]);
    let e = t.accumulate(&bind(&[])).unwrap_err();
    assert_eq!(e.kind(), TreeErrorKind::VarNotFound);
    assert_eq!(e.message(), "Found variable in tree but not map");
    let e = t.accumulate_recurse(&bind(&[])).unwrap_err();
    assert_eq!(e.kind(), TreeErrorKind::VarNotFound);
}

#[test]
fn nested_product_and_sum() {
    let t = operator(
        sum,
        vec![operator(product, vec![constant(2), constant(3)]), variable("x")],
    );
    assert_eq!(t.accumulate(&bind(&[("x", 1)])).unwrap(), 7);
    assert_eq!(t.accumulate_recurse(&bind(&[("x", 1)])).unwrap(), 7);
}

#[test]
fn operands_keep_their_order() {
    let t = operator(minus, vec![constant(10), variable("x")]);
    assert_eq!(t.accumulate(&bind(&[("x", 4)])).unwrap(), 6);
    assert_eq!(t.accumulate_recurse(&bind(&[("x", 4)])).unwrap(), 6);
    let deep = operator(
        minus,
        vec![operator(minus, vec![constant(20), constant(5)]), operator(minus, vec![variable("x"), constant(1)])],
    );
    assert_eq!(deep.accumulate(&bind(&[("x", 4)])).unwrap(), 12);
    assert_eq!(deep.accumulate_recurse(&bind(&[("x", 4)])).unwrap(), 12);
}

#[test]
fn single_leaves_evaluate() {
    assert_eq!(constant(9).accumulate(&bind(&[])).unwrap(), 9);
    assert_eq!(constant(9).accumulate_recurse(&bind(&[])).unwrap(), 9);
    assert_eq!(variable("y").accumulate(&bind(&[("y", -3)])).unwrap(), -3);
    assert_eq!(variable("y").accumulate_recurse(&bind(&[("y", -3)])).unwrap(), -3);
    assert!(variable("y").accumulate(&bind(&[("x", 1)])).is_err());
}

#[test]
fn both_forms_agree() {
    let t = operator(
        product,
        vec![
            operator(sum, vec![variable("a"), constant(1), variable("b")]),
            operator(minus, vec![variable("a"), variable("c")]),
            constant(2),
        ],
    );
    let full = bind(&[("a", 5), ("b", 7), ("c", 2)]);
    assert_eq!(t.accumulate(&full).unwrap(), (5 + 1 + 7) * (5 - 2) * 2);
    assert_eq!(t.accumulate(&full).unwrap(), t.accumulate_recurse(&full).unwrap());
    let partial = bind(&[("a", 5), ("b", 7)]);
    assert_eq!(t.accumulate(&partial).unwrap_err().kind(), TreeErrorKind::VarNotFound);
    assert_eq!(t.accumulate_recurse(&partial).unwrap_err().kind(), TreeErrorKind::VarNotFound);
}

#[test]
fn links_below_a_leaf_are_passed_by() {
    let mut c = constant(4);
    c.link(vec![variable("nowhere")]);
    let t = operator(sum, vec![c, constant(1)]);
    assert_eq!(t.accumulate(&bind(&[])).unwrap(), 5);
    assert_eq!(t.accumulate_recurse(&bind(&[])).unwrap(), 5);
}

#[test]
fn later_binding_replaces_earlier() {
    let mut b = Bindings::new();
    b.insert("x".to_string(), 1);
    b.insert("x".to_string(), 2);
    assert_eq!(b.len(), 1);
    assert_eq!(b.get("x"), Some(&2));
    assert_eq!(b.get("y"), None);
    assert_eq!(variable("x").accumulate(&b).unwrap(), 2);
}
