use ketree::{Bindings, Expression, NameSet, Tree, TreeBuilder, TreeError, TreeErrorKind};

type Op = fn(Vec<i64>) -> i64;
type Node = Tree<i64, Op>;

fn sum(v: Vec<i64>) -> i64 {
    v.iter().sum()
}

fn constant(c: i64) -> Node {
    Tree::new(Expression::Constant(c))
}

fn variable(name: &str) -> Node {
    Tree::new(Expression::Variable(name.to_string()))
}

#[test]
fn new_node_has_no_links() {
    let t = constant(3);
    assert!(t.children().is_none());
    assert!(matches!(t.data(), Expression::Constant(3)));
    let v = variable("x");
    assert!(v.children().is_none());
    assert!(matches!(v.data(), Expression::Variable(name) if name == "x"));
    let o: Node = Tree::new(Expression::Operator(sum as Op));
    assert!(o.children().is_none());
    assert!(matches!(o.data(), Expression::Operator(_)));
}

#[test]
fn link_replaces_the_links_and_keeps_the_data() {
    let mut t: Node = Tree::new(Expression::Operator(sum as Op));
    t.link(vec![constant(1), constant(2)]);
    assert_eq!(t.children().as_ref().unwrap().len(), 2);
    t.link(vec![variable("x")]);
    let kids = t.children().as_ref().unwrap();
    assert_eq!(kids.len(), 1);
    assert!(matches!(kids[0].data(), Expression::Variable(name) if name == "x"));
    assert!(matches!(t.data(), Expression::Operator(_)));
    t.link(vec![]);
    assert_eq!(t.children().as_ref().unwrap().len(), 0);
}

#[test]
fn link_through_one_handle_is_not_seen_through_another() {
    let mut first: Node = Tree::new(Expression::Operator(sum as Op));
    first.link(vec![constant(1), constant(2)]);
    let second = first.clone();
    first.link(vec![constant(10)]);
    assert_eq!(first.children().as_ref().unwrap().len(), 1);
    let kept = second.children().as_ref().unwrap();
    assert_eq!(kept.len(), 2);
    assert!(matches!(kept[0].data(), Expression::Constant(1)));
    assert!(matches!(kept[1].data(), Expression::Constant(2)));
    assert_eq!(second.accumulate(&Bindings::new()).unwrap(), 3);
    assert_eq!(first.accumulate(&Bindings::new()).unwrap(), 10);
}

#[test]
fn reduce_through_one_handle_is_not_seen_through_another() {
    let mut first: Node = Tree::new(Expression::Operator(sum as Op));
    first.link(vec![constant(3), constant(4)]);
    let mut parent: Node = Tree::new(Expression::Operator(sum as Op));
    parent.link(vec![first.clone(), variable("x")]);
    first.reduce();
    assert!(matches!(first.data(), Expression::Constant(7)));
    assert!(first.children().is_none());
    let inside = &parent.children().as_ref().unwrap()[0];
    assert!(matches!(inside.data(), Expression::Operator(_)));
    assert_eq!(inside.children().as_ref().unwrap().len(), 2);
    parent.reduce();
    let second = first.clone();
    first.link(vec![constant(1)]);
    assert!(second.children().is_none());
}

#[test]
fn error_of_each_kind_has_its_text() {
    let e = TreeError::create(TreeErrorKind::VarNotFound);
    assert_eq!(e.kind(), TreeErrorKind::VarNotFound);
    assert_eq!(e.message(), "Found variable in tree but not map");
    let e = TreeError::create(TreeErrorKind::TreeNotInScope);
    assert_eq!(e.kind(), TreeErrorKind::TreeNotInScope);
    assert_eq!(e.message(), "Tree not defined in scope - use (define $name $tree)");
}

#[test]
fn program_is_prologue_body_epilogue_on_three_lines() {
    let b = TreeBuilder::new("(define tree (+ 1 x))", "(do", ")");
    assert_eq!(b.program(), "(do\n(define tree (+ 1 x))\n)");
    let empty = TreeBuilder::new("", "", "");
    assert_eq!(empty.program(), "\n\n");
}

#[test]
fn setters_replace_one_part_each() {
    let mut b = TreeBuilder::new("body", "pro", "epi");
    b.set_body("other");
    assert_eq!(b.program(), "pro\nother\nepi");
    b.set_prologue("before");
    assert_eq!(b.program(), "before\nother\nepi");
    b.set_epilogue("after");
    assert_eq!(b.program(), "before\nother\nafter");
}

#[test]
fn variable_is_recorded_once() {
    let mut seen = NameSet::new();
    let x: Node = TreeBuilder::variable(&mut seen, "x");
    assert!(matches!(x.data(), Expression::Variable(name) if name == "x"));
    assert!(x.children().is_none());
    let _y: Node = TreeBuilder::variable(&mut seen, "y");
    let _again: Node = TreeBuilder::variable(&mut seen, "x");
    assert_eq!(seen.len(), 2);
    assert!(seen.contains("x"));
    assert!(seen.contains("y"));
    assert!(!seen.contains("z"));
    assert_eq!(seen.names(), &vec!["x".to_string(), "y".to_string()]);
}

#[test]
fn name_set_tells_new_names_from_old() {
    let mut s = NameSet::new();
    assert_eq!(s.len(), 0);
    assert!(!s.contains(""));
    assert!(s.insert("a"));
    assert!(s.insert(""));
    assert!(!s.insert("a"));
    assert!(s.insert("ab"));
    assert_eq!(s.len(), 3);
    assert_eq!(s.names(), &vec!["a".to_string(), "".to_string(), "ab".to_string()]);
}

#[test]
fn outcome_without_a_tree_is_tree_not_in_scope() {
    let mut seen = NameSet::new();
    seen.insert("x");
    let r = TreeBuilder::outcome::<i64, Op>(None, seen);
    let e = r.err().unwrap();
    assert_eq!(e.kind(), TreeErrorKind::TreeNotInScope);
    assert_eq!(e.message(), "Tree not defined in scope - use (define $name $tree)");
}

#[test]
fn outcome_with_a_tree_hands_it_on() {
    let mut seen = NameSet::new();
    let x: Node = TreeBuilder::variable(&mut seen, "x");
    let mut t: Node = Tree::new(Expression::Operator(sum as Op));
    t.link(vec![x, constant(4)]);
    let (tree, names) = TreeBuilder::outcome(Some(t), seen).ok().unwrap();
    assert!(names.contains("x"));
    let mut b = Bindings::new();
    b.insert("x".to_string(), 2);
    assert_eq!(tree.accumulate(&b).unwrap(), 6);
}

#[test]
fn tree_of_floats_built_the_way_a_program_builds_it() {
    fn plus(v: Vec<f32>) -> f32 {
        v.iter().fold(0.0, |sum, i| sum + i)
    }
    fn mult(v: Vec<f32>) -> f32 {
        v.iter().fold(1.0, |m, i| m * i)
    }
    type FloatOp = fn(Vec<f32>) -> f32;
    let mut seen = NameSet::new();
    let x: Tree<f32, FloatOp> = TreeBuilder::variable(&mut seen, "x");
    let mut inner: Tree<f32, FloatOp> = Tree::new(Expression::Operator(plus as FloatOp));
    inner.link(vec![x.clone(), Tree::new(Expression::Constant(1.0))]);
    let mut tree: Tree<f32, FloatOp> = Tree::new(Expression::Operator(mult as FloatOp));
    tree.link(vec![inner, x]);
    assert!(seen.contains("x"));
    let mut vars = Bindings::new();
    vars.insert("x".to_string(), 2.0);
    assert_eq!(6.0, tree.accumulate(&vars).unwrap());
    assert_eq!(6.0, tree.accumulate_recurse(&vars).unwrap());
}
