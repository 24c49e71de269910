use hare::ast::AstNode;
use hare::ast::BinaryOp;
use hare::errors::ParserError;
use hare::parse_tree::ParseTree;
use hare::parse_tree::Rule;
use hare::parser::parse;
use hare::parser::parse_binary_op;
use hare::parser::parse_pair;
use hare::parser::parse_expr;
use hare::parser::parse_pairs;

fn constant(text: &str) -> AstNode {
    AstNode::Constant(text.to_string())
}

fn leaf(rule: Rule, text: &str) -> ParseTree {
    ParseTree { rule, text: text.to_string(), children: vec![] }
}

#[test]
fn test_precedence_rendering() {
    let ast = parse("1 + 2 * 3 - 4 / 5").unwrap();
    assert_eq!(ast.len(), 1);
    assert_eq!(ast[0].as_code(), "((1 + (2 * 3)) - (4 / 5))");
}

#[test]
fn test_parenthesized_operand() {
    let ast = parse("(1 + 2) * 3;").unwrap();
    assert_eq!(ast.len(), 1);
    assert_eq!(ast[0].as_code(), "((1 + 2) * 3)");
}

#[test]
fn test_relational_binds_loosest() {
    let ast = parse("1 + 2 == 3 * 4;").unwrap();
    assert_eq!(ast[0].as_code(), "((1 + 2) == (3 * 4))");
}

#[test]
fn test_modulo_binds_tightest() {
    let ast = parse("2 * 3 % 4;").unwrap();
    assert_eq!(ast[0].as_code(), "(2 * (3 % 4))");
}

#[test]
fn test_normalize_idempotent_on_sample() {
    let ast = parse("let a = 1 + 2").unwrap();
    let once = ast[0].format_ast();
    let twice = once.format_ast();
    assert_eq!(once, twice);
}

#[test]
fn test_assign_value_is_wrapped() {
    let ast = parse("let a = 1").unwrap();
    match &ast[0] {
        AstNode::Assign(id, ann, value) => {
            assert_eq!(**id, AstNode::Identifier("a".to_string()));
            assert!(ann.is_none());
            assert_eq!(
                **value,
                AstNode::Expr(Box::new(constant("1")), None, None)
            );
        },
        _ => panic!("expected an assignment"),
    }
}

#[test]
fn test_if_condition_is_wrapped() {
    let ast = parse("if a { return 1; }").unwrap();
    match &ast[0] {
        AstNode::If(cond, _, elifs, els) => {
            assert_eq!(
                **cond,
                AstNode::Expr(
                    Box::new(AstNode::Identifier("a".to_string())),
                    None,
                    None,
                )
            );
            assert!(elifs.is_empty());
            assert!(els.is_none());
        },
        _ => panic!("expected a conditional"),
    }
}

#[test]
fn test_if_elif_else_rendering() {
    let ast = parse("if a { return 1; } elif b { return 2; } else { return 3; }").unwrap();
    assert_eq!(ast.len(), 1);
    assert_eq!(
        ast[0].as_code(),
        "if a \n{return 1;\n}\nelif b \n{return 2;\n}\n\nelse \n{return 3;\n}\n\n"
    );
}

#[test]
fn test_return_rendering() {
    let ast = parse("return 1 + 2;").unwrap();
    assert_eq!(ast[0].as_code(), "return (1 + 2);");
}

#[test]
fn test_comment_is_filtered() {
    let ast = parse("// a comment\n1 + 2;").unwrap();
    assert_eq!(ast.len(), 1);
    assert_eq!(ast[0].as_code(), "(1 + 2)");
}

#[test]
fn test_string_and_boolean_literals() {
    let ast = parse("let s = \"a\"; let z: bool = true").unwrap();
    assert_eq!(ast.len(), 2);
    assert_eq!(ast[0].as_code(), "let s = \"a\";");
    assert_eq!(ast[1].as_code(), "let z: bool = true;");
}

#[test]
fn test_float_literal() {
    let ast = parse("let x = 1.5").unwrap();
    assert_eq!(ast[0].as_code(), "let x = 1.5;");
}

#[test]
fn test_int_leading_zeros_are_canonicalized() {
    let ast = parse("007;").unwrap();
    assert_eq!(ast[0].as_code(), "7");
}

#[test]
fn test_builder_canonicalizes_int_literal_text() {
    let tree = ParseTree {
        rule: Rule::Constant,
        text: String::new(),
        children: vec![leaf(Rule::Int, "007")],
    };
    assert_eq!(parse_pair(&tree).unwrap(), constant("7"));
    let zeros = ParseTree {
        rule: Rule::Constant,
        text: String::new(),
        children: vec![leaf(Rule::Int, "000")],
    };
    assert_eq!(parse_pair(&zeros).unwrap(), constant("0"));
}

#[test]
fn test_builder_trims_float_literal_zeros() {
    let tree = ParseTree {
        rule: Rule::Constant,
        text: String::new(),
        children: vec![leaf(Rule::Float, "001.500")],
    };
    assert_eq!(parse_pair(&tree).unwrap(), constant("1.5"));
}

#[test]
fn test_float_redundant_zeros_are_trimmed() {
    let ast = parse("let x = 1.50").unwrap();
    assert_eq!(ast[0].as_code(), "let x = 1.5;");
    let ast = parse("let y = 007.5").unwrap();
    assert_eq!(ast[0].as_code(), "let y = 7.5;");
    let ast = parse("let z = 0.50").unwrap();
    assert_eq!(ast[0].as_code(), "let z = 0.5;");
}

#[test]
fn test_float_point_adjacent_zeros_are_kept() {
    let ast = parse("let x = 1.0").unwrap();
    assert_eq!(ast[0].as_code(), "let x = 1.0;");
    let ast = parse("let y = 0.5").unwrap();
    assert_eq!(ast[0].as_code(), "let y = 0.5;");
}

#[test]
fn test_as_raw_symbols() {
    assert_eq!(BinaryOp::Add.as_raw(), "+");
    assert_eq!(BinaryOp::Sub.as_raw(), "-");
    assert_eq!(BinaryOp::Mul.as_raw(), "*");
    assert_eq!(BinaryOp::Div.as_raw(), "/");
    assert_eq!(BinaryOp::Mod.as_raw(), "%");
    assert_eq!(BinaryOp::Eq.as_raw(), "==");
    assert_eq!(BinaryOp::Neq.as_raw(), "!=");
    assert_eq!(BinaryOp::Gt.as_raw(), ">");
    assert_eq!(BinaryOp::Gte.as_raw(), ">=");
    assert_eq!(BinaryOp::Lt.as_raw(), "<");
    assert_eq!(BinaryOp::Lte.as_raw(), "<=");
}

#[test]
fn test_syntax_error_on_dangling_operator() {
    let result = parse("1 + ;");
    assert!(result.is_err());
    assert!(matches!(result.unwrap_err(), ParserError::SyntaxError(_)));
}

#[test]
fn test_syntax_error_on_bad_character() {
    let result = parse("1 + @;");
    assert!(result.is_err());
    assert!(matches!(result.unwrap_err(), ParserError::SyntaxError(_)));
}

#[test]
fn test_unknown_error_on_unexpected_rule() {
    let tree = leaf(Rule::Program, "");
    let result = parse_pair(&tree);
    assert!(result.is_err());
    assert!(matches!(result.unwrap_err(), ParserError::UnknownError(_)));
}

#[test]
fn test_parse_binary_op_classification() {
    assert_eq!(parse_binary_op(&leaf(Rule::Add, "+")).unwrap(), BinaryOp::Add);
    assert_eq!(parse_binary_op(&leaf(Rule::Modulo, "%")).unwrap(), BinaryOp::Mod);
    let err = parse_binary_op(&leaf(Rule::Ident, "a"));
    assert!(matches!(err.unwrap_err(), ParserError::SyntaxError(_)));
}

#[test]
fn test_parse_pairs_filters_empty_markers() {
    let trees = vec![leaf(Rule::Int, "3"), leaf(Rule::Eoi, ""), leaf(Rule::Comment, "// c")];
    let nodes = parse_pairs(&trees).unwrap();
    assert_eq!(nodes, vec![constant("3")]);
}

#[test]
fn test_parse_expr_resolves_children() {
    let expr_tree = ParseTree {
        rule: Rule::Expr,
        text: String::new(),
        children: vec![
            ParseTree {
                rule: Rule::Constant,
                text: String::new(),
                children: vec![leaf(Rule::Int, "1")],
            },
            leaf(Rule::Add, "+"),
            ParseTree {
                rule: Rule::Constant,
                text: String::new(),
                children: vec![leaf(Rule::Int, "2")],
            },
        ],
    };
    let node = parse_expr(&expr_tree);
    assert_eq!(
        node,
        Some(AstNode::Expr(
            Box::new(constant("1")),
            Some(BinaryOp::Add),
            Some(Box::new(constant("2"))),
        ))
    );
}

#[test]
fn test_parse_expr_rejects_bad_operand() {
    let expr_tree = ParseTree {
        rule: Rule::Expr,
        text: "+".to_string(),
        children: vec![leaf(Rule::Add, "+")],
    };
    assert_eq!(parse_expr(&expr_tree), None);
}

#[test]
fn test_error_descriptions_carry_text() {
    let err = parse("1 + @;").unwrap_err();
    assert!(!err.describe().is_empty());
    let err = parse_pair(&leaf(Rule::Program, "")).unwrap_err();
    assert!(!err.describe().is_empty());
}

#[test]
fn test_deep_copy_is_structural() {
    let ast = parse("let a: int = 1 + 2 * 3").unwrap();
    let copy = ast[0].deep_copy();
    assert_eq!(copy, ast[0]);
}

#[test]
fn test_block_rendering() {
    let ast = parse("{ let a = 1 a = 2 }").unwrap();
    assert_eq!(ast.len(), 1);
    assert_eq!(ast[0].as_code(), "{let a = 1;\na = 2;\n}");
}

#[test]
fn test_empty_input_parses_to_nothing() {
    let ast = parse("").unwrap();
    assert_eq!(ast.len(), 0);
}
