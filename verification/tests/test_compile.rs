use hare::ast::AstNode;
use hare::ast::BinaryOp;
use hare::compiler::ByteCode;
use hare::compiler::OpCode;
use hare::compiler::get_random_name;
use hare::errors::CompilerError;
use hare::parser::parse;

fn push(text: &str) -> ByteCode {
    ByteCode::new(OpCode::Push, vec![text.to_string()])
}

fn bare(op: OpCode) -> ByteCode {
    ByteCode::new(op, vec![])
}

#[test]
fn test_compile_addition_order() {
    let ast = parse("1 + 2;").unwrap();
    assert_eq!(ast.len(), 1);
    let codes = ast[0].compile().unwrap();
    assert_eq!(codes, vec![push("1"), push("2"), bare(OpCode::Add)]);
}

#[test]
fn test_compile_precedence_order() {
    let ast = parse("1 + 2 * 3;").unwrap();
    assert_eq!(ast.len(), 1);
    let codes = ast[0].compile().unwrap();
    assert_eq!(
        codes,
        vec![push("1"), push("2"), push("3"), bare(OpCode::Mul), bare(OpCode::Add)]
    );
}

#[test]
fn test_compile_program_concatenates() {
    let ast = parse("1 + 2; 7;").unwrap();
    assert_eq!(ast.len(), 2);
    let program = AstNode::Program(ast);
    let codes = program.compile().unwrap();
    assert_eq!(codes, vec![push("1"), push("2"), bare(OpCode::Add), push("7")]);
}

#[test]
fn test_compile_identifier_loads_name() {
    let ast = parse("a + 1;").unwrap();
    let codes = ast[0].compile().unwrap();
    assert_eq!(
        codes,
        vec![
            ByteCode::new(OpCode::LoadName, vec!["a".to_string()]),
            push("1"),
            bare(OpCode::Add),
        ]
    );
}

#[test]
fn test_compile_statements_emit_nothing() {
    let ast = parse("let a = 1").unwrap();
    let codes = ast[0].compile().unwrap();
    assert_eq!(codes, vec![]);
}

#[test]
fn test_compile_error_on_missing_right_operand() {
    let malformed = AstNode::Expr(
        Box::new(AstNode::Constant("1".to_string())),
        Some(BinaryOp::Add),
        None,
    );
    let result = malformed.compile();
    assert!(result.is_err());
    let e = result.unwrap_err();
    assert!(matches!(e, CompilerError::CompileError(_)));
}

#[test]
fn test_to_opcode() {
    assert_eq!(BinaryOp::Add.to_opcode(), OpCode::Add);
    assert_eq!(BinaryOp::Sub.to_opcode(), OpCode::Sub);
    assert_eq!(BinaryOp::Mul.to_opcode(), OpCode::Mul);
    assert_eq!(BinaryOp::Div.to_opcode(), OpCode::Div);
    assert_eq!(BinaryOp::Mod.to_opcode(), OpCode::Mod);
    assert_eq!(BinaryOp::Eq.to_opcode(), OpCode::Eq);
    assert_eq!(BinaryOp::Neq.to_opcode(), OpCode::Neq);
    assert_eq!(BinaryOp::Gt.to_opcode(), OpCode::Gt);
    assert_eq!(BinaryOp::Gte.to_opcode(), OpCode::Gte);
    assert_eq!(BinaryOp::Lt.to_opcode(), OpCode::Lt);
    assert_eq!(BinaryOp::Lte.to_opcode(), OpCode::Lte);
}

#[test]
fn test_random_section_name_is_eight_digits() {
    let name = get_random_name();
    assert_eq!(name.len(), 8);
    for c in name.chars() {
        assert!(c.is_ascii_digit());
    }
    let other = get_random_name();
    assert_eq!(other.len(), 8);
}
