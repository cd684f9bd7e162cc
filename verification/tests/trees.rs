//! Tests of the parser: call forms, operator chains, grouping, and the two
//! failure modes.

use lexparse::parser::{Data, Node, Parser, UnaryNode};

fn parse_one(text: &str) -> Node {
    let mut ps = Parser::new(text);
    let mut nodes = ps.parse().expect("parse failed");
    assert_eq!(nodes.len(), 1);
    nodes.remove(0)
}

fn same_tree(a: &Node, b: &Node) -> bool {
    match (a, b) {
        (Node::Unary(x), Node::Unary(y)) => {
            x.name == y.name && x.value.data_type == y.value.data_type
                && x.value.value == y.value.value
        },
        (Node::Binary(x), Node::Binary(y)) => {
            x.value.data_type == y.value.data_type && x.value.value == y.value.value
                && same_tree(&x.left, &y.left) && same_tree(&x.right, &y.right)
        },
        (Node::List(x), Node::List(y)) => {
            x.name == y.name && x.value.len() == y.value.len()
                && x.value.iter().zip(y.value.iter()).all(|(m, n)| same_tree(m, n))
        },
        _ => false,
    }
}

#[test]
fn parse_call_with_two_arguments() {
    let n = parse_one("x(1,2)");
    match n {
        Node::Binary(b) => {
            assert_eq!(b.value.value, "FUNC");
            match *b.left {
                Node::Unary(u) => assert_eq!(u.value.value, "x"),
                _ => panic!("left child is not a leaf"),
            }
            match *b.right {
                Node::List(l) => {
                    assert_eq!(l.value.len(), 2);
                    match &l.value[0] {
                        Node::Unary(u) => assert_eq!(u.value.value, "1"),
                        _ => panic!("first argument is not a leaf"),
                    }
                    match &l.value[1] {
                        Node::Unary(u) => assert_eq!(u.value.value, "2"),
                        _ => panic!("second argument is not a leaf"),
                    }
                },
                _ => panic!("right child is not a list"),
            }
        },
        _ => panic!("not a binary node"),
    }
}

#[test]
fn parse_operator_on_literals() {
    let n = parse_one("1 + 2");
    match n {
        Node::Binary(b) => {
            assert_eq!(b.value.value, "OPER_ADDTN");
            match *b.left {
                Node::Unary(u) => {
                    assert_eq!(u.name, "NUMBER_LIT");
                    assert_eq!(u.value.value, "1");
                },
                _ => panic!("left child is not a leaf"),
            }
            match *b.right {
                Node::Unary(u) => assert_eq!(u.value.value, "2"),
                _ => panic!("right child is not a leaf"),
            }
        },
        _ => panic!("not a binary node"),
    }
}

#[test]
fn parse_comparison_on_literals() {
    let n = parse_one("1 < 2");
    match n {
        Node::Binary(b) => {
            assert_eq!(b.value.value, "OPER_IS_LESS");
            match *b.left {
                Node::Unary(u) => assert_eq!(u.value.value, "1"),
                _ => panic!("left child is not a leaf"),
            }
            match *b.right {
                Node::Unary(u) => assert_eq!(u.value.value, "2"),
                _ => panic!("right child is not a leaf"),
            }
        },
        _ => panic!("not a binary node"),
    }
}

#[test]
fn parentheses_are_transparent() {
    let a = parse_one("(1 + 2)");
    let b = parse_one("1 + 2");
    assert!(same_tree(&a, &b));
}

#[test]
fn unterminated_call_at_end_of_stream_is_accepted() {
    let n = parse_one("x(");
    match n {
        Node::Binary(b) => {
            assert_eq!(b.value.value, "FUNC");
            match *b.right {
                Node::List(l) => assert_eq!(l.value.len(), 0),
                _ => panic!("right child is not a list"),
            }
        },
        _ => panic!("not a binary node"),
    }
}

#[test]
fn unterminated_call_before_more_items_aborts() {
    let mut ps = Parser::new("x(1 a b");
    match ps.parse() {
        Err(e) => assert_eq!(e.found, "a"),
        Ok(_) => panic!("expected the fatal failure"),
    }
}

#[test]
fn repeated_parses_build_equal_trees() {
    let a = parse_one("out(1, 'two', 3)");
    let b = parse_one("out(1, 'two', 3)");
    assert!(same_tree(&a, &b));
}

#[test]
fn parse_assignment_chain() {
    let n = parse_one("x = 1");
    match n {
        Node::Binary(b) => {
            assert_eq!(b.value.value, "ITEM");
            match *b.left {
                Node::Unary(u) => assert_eq!(u.value.value, "x"),
                _ => panic!("left child is not a leaf"),
            }
            match *b.right {
                Node::Unary(u) => {
                    assert_eq!(u.name, "NUMBER_LIT");
                    assert_eq!(u.value.value, "1");
                },
                _ => panic!("right child is not a leaf"),
            }
        },
        _ => panic!("not a binary node"),
    }
}

#[test]
fn malformed_input_degrades_to_end_leaf() {
    let n = parse_one(";");
    match n {
        Node::Unary(u) => {
            assert_eq!(u.name, "END");
            assert_eq!(u.value.value, "END");
        },
        _ => panic!("not a leaf"),
    }
}

#[test]
fn node_accessors() {
    let n = parse_one("x(7)");
    assert_eq!(n.get_type(), "binary");
    assert_eq!(n.get_value().value, "FUNC");
    match n {
        Node::Binary(b) => {
            assert_eq!(b.left.get_type(), "unary");
            let list = *b.right;
            assert_eq!(list.get_type(), "list");
            // The list's cursor index starts at the first child.
            assert_eq!(list.get_value().value, "7");
        },
        _ => panic!("not a binary node"),
    }
}

#[test]
fn empty_input_yields_end_leaf() {
    let n = parse_one("");
    match n {
        Node::Unary(u) => assert_eq!(u.name, "END"),
        _ => panic!("not a leaf"),
    }
}

#[test]
fn nested_parentheses_are_transparent() {
    let a = parse_one("((1))");
    let b = parse_one("1");
    assert!(same_tree(&a, &b));
}

#[test]
fn nested_call_in_argument_list() {
    let n = parse_one("x('a b', y(2))");
    match n {
        Node::Binary(b) => {
            assert_eq!(b.value.value, "FUNC");
            match *b.right {
                Node::List(l) => {
                    assert_eq!(l.value.len(), 2);
                    match &l.value[0] {
                        Node::Unary(u) => {
                            assert_eq!(u.name, "STRING_LIT");
                            assert_eq!(u.value.value, "a b");
                        },
                        _ => panic!("first argument is not a leaf"),
                    }
                    match &l.value[1] {
                        Node::Binary(inner) => assert_eq!(inner.value.value, "FUNC"),
                        _ => panic!("second argument is not a call"),
                    }
                },
                _ => panic!("right child is not a list"),
            }
        },
        _ => panic!("not a binary node"),
    }
}

#[test]
fn leaf_constructors_carry_fields() {
    let u = UnaryNode::new("ITEM", Data::new("", "name"));
    assert_eq!(u.name, "ITEM");
    assert_eq!(u.value.value, "name");
    assert_eq!(u.value.data_type, "");
}
