use kanic::lexer::tokenize;
use kanic::parser::{parse, ArithOp, CmpOp, Node};

#[test]
fn test_ok_parse_single() {
    let tokens = tokenize("1;").unwrap();
    let actual = parse(tokens).unwrap();
    assert_eq!(actual.nodes, vec![Node::num(1)]);
}

#[test]
fn test_ok_parse_complex() {
    let tokens = tokenize("(+1 + -2) * 3 - 4 / 5;").unwrap();
    let actual = parse(tokens).unwrap();
    assert_eq!(
        actual.nodes,
        vec![Node::arith_op(
            ArithOp::Sub,
            Node::arith_op(
                ArithOp::Mul,
                Node::arith_op(
                    ArithOp::Add,
                    Node::num(1),
                    Node::arith_op(ArithOp::Sub, Node::num(0), Node::num(2))
                ),
                Node::num(3),
            ),
            Node::arith_op(ArithOp::Div, Node::num(4), Node::num(5))
        )]
    );
}

#[test]
fn test_ok_with_cmp() {
    let tokens = tokenize("(1 + 2 * 3 > 4) != (5 < 6 == 7 >= 8);").unwrap();
    let actual = parse(tokens).unwrap();
    assert_eq!(
        actual.nodes,
        vec![Node::cmp_op(
            CmpOp::Neq,
            Node::cmp_op(
                CmpOp::Lt,
                Node::num(4),
                Node::arith_op(
                    ArithOp::Add,
                    Node::num(1),
                    Node::arith_op(ArithOp::Mul, Node::num(2), Node::num(3))
                )
            ),
            Node::cmp_op(
                CmpOp::Eq,
                Node::cmp_op(CmpOp::Lt, Node::num(5), Node::num(6)),
                Node::cmp_op(CmpOp::Lte, Node::num(8), Node::num(7),)
            )
        )]
    );
}

#[test]
fn test_ok_with_assign() {
    let tokens = tokenize("a = 1 + 2 * 3; bar = a; return bar;").unwrap();
    let actual = parse(tokens).unwrap();
    assert_eq!(
        actual.nodes,
        vec![
            Node::arith_op(
                ArithOp::Assign,
                Node::local_var(8),
                Node::arith_op(
                    ArithOp::Add,
                    Node::num(1),
                    Node::arith_op(ArithOp::Mul, Node::num(2), Node::num(3))
                )
            ),
            Node::arith_op(ArithOp::Assign, Node::local_var(16), Node::local_var(8)),
            Node::ret(Node::local_var(16))
        ]
    );
    assert_eq!(actual.stack_size, 16);
}

#[test]
fn test_offsets_are_stable_and_sequential() {
    let tokens = tokenize("a = 3; bar = 10; return 3 * a + bar;").unwrap();
    let actual = parse(tokens).unwrap();
    assert_eq!(actual.stack_size, 16);
    assert_eq!(
        actual.nodes[2],
        Node::ret(Node::arith_op(
            ArithOp::Add,
            Node::arith_op(ArithOp::Mul, Node::num(3), Node::local_var(8)),
            Node::local_var(16)
        ))
    );
}

#[test]
fn test_assign_right_associative() {
    let tokens = tokenize("a = b = c;").unwrap();
    let actual = parse(tokens).unwrap();
    match &actual.nodes[0] {
        Node::ArithOp { value: ArithOp::Assign, lhs, rhs } => {
            assert_eq!(**lhs, Node::local_var(8));
            assert!(matches!(**rhs, Node::ArithOp { value: ArithOp::Assign, .. }));
        }
        other => panic!("expected an assignment, found {:?}", other),
    }
}

#[test]
fn test_gt_swaps_operands() {
    let tokens = tokenize("x > y;").unwrap();
    let actual = parse(tokens).unwrap();
    assert_eq!(
        actual.nodes,
        vec![Node::cmp_op(CmpOp::Lt, Node::local_var(16), Node::local_var(8))]
    );
}

#[test]
fn test_bare_semicolon_rejected() {
    let tokens = tokenize(";").unwrap();
    assert!(parse(tokens).is_err());
}

#[test]
fn test_top_of_i64_range_accepted() {
    let tokens = tokenize("return 9223372036854775807;").unwrap();
    assert_eq!(
        parse(tokens).unwrap().nodes,
        vec![Node::ret(Node::num(9223372036854775807))]
    );
}

#[test]
fn test_oversized_literal_is_invalid_token() {
    assert!(tokenize("return 9223372036854775808;").is_err());
}

#[test]
fn test_empty_program_parses_to_nothing() {
    let tokens = tokenize("").unwrap();
    let actual = parse(tokens).unwrap();
    assert!(actual.nodes.is_empty());
    assert_eq!(actual.stack_size, 0);
}

#[test]
fn parser_test_ok_if() {
    let tokens = tokenize("if (1) return 2; else return 3;").unwrap();
    let actual = parse(tokens).unwrap();
    assert_eq!(
        actual.nodes,
        vec![Node::if_(
            ".L0".to_string(),
            Node::num(1),
            Node::ret(Node::num(2)),
            Some(Node::ret(Node::num(3)))
        )]
    );
}

#[test]
fn test_ok_parse_if_without_else() {
    let tokens = tokenize("if (1) return 2;").unwrap();
    let actual = parse(tokens).unwrap();
    assert_eq!(
        actual.nodes,
        vec![Node::if_(".L0".to_string(), Node::num(1), Node::ret(Node::num(2)), None)]
    );
}

#[test]
fn test_ok_parse_while() {
    let tokens = tokenize("a = 0; while (a < 10) a = a + 1; return a;").unwrap();
    let actual = parse(tokens).unwrap();
    assert_eq!(actual.stack_size, 8);
    assert_eq!(
        actual.nodes[1],
        Node::while_(
            ".L0".to_string(),
            ".L1".to_string(),
            Node::cmp_op(CmpOp::Lt, Node::local_var(8), Node::num(10)),
            Node::arith_op(
                ArithOp::Assign,
                Node::local_var(8),
                Node::arith_op(ArithOp::Add, Node::local_var(8), Node::num(1))
            )
        )
    );
}

#[test]
fn test_ok_parse_for() {
    let tokens = tokenize("for (i = 0; i < 10; i = i + 1) return i;").unwrap();
    let actual = parse(tokens).unwrap();
    assert_eq!(
        actual.nodes,
        vec![Node::for_(
            ".L0".to_string(),
            ".L1".to_string(),
            Some(Node::arith_op(ArithOp::Assign, Node::local_var(8), Node::num(0))),
            Some(Node::cmp_op(CmpOp::Lt, Node::local_var(8), Node::num(10))),
            Some(Node::arith_op(
                ArithOp::Assign,
                Node::local_var(8),
                Node::arith_op(ArithOp::Add, Node::local_var(8), Node::num(1))
            )),
            Node::ret(Node::local_var(8))
        )]
    );
}

#[test]
fn test_ok_parse_empty_for_clauses() {
    let tokens = tokenize("for (;;) return 1;").unwrap();
    let actual = parse(tokens).unwrap();
    assert_eq!(
        actual.nodes,
        vec![Node::for_(
            ".L0".to_string(),
            ".L1".to_string(),
            None,
            None,
            None,
            Node::ret(Node::num(1))
        )]
    );
}

#[test]
fn test_nested_ifs_get_distinct_labels() {
    let tokens = tokenize("if (1) if (2) return 3;").unwrap();
    let actual = parse(tokens).unwrap();
    assert_eq!(
        actual.nodes,
        vec![Node::if_(
            ".L1".to_string(),
            Node::num(1),
            Node::if_(".L0".to_string(), Node::num(2), Node::ret(Node::num(3)), None),
            None
        )]
    );
}
