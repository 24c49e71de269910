use hare::parser::parse;

#[test]
fn test_assign1() {
    let expr = "let a = 1";
    let ast = parse(expr);
    assert!(ast.is_ok());
    let ast = ast.unwrap();

    assert!(ast.len() == 1);
    assert_eq!(ast[0].as_code(), "let a = 1;");
}

#[test]
fn test_assign2() {
    let expr = "let a = 1 + 2";
    let ast = parse(expr);
    assert!(ast.is_ok());
    let ast = ast.unwrap();
    assert!(ast.len() == 1);
    assert_eq!(ast[0].as_code(), "let a = (1 + 2);");
}

#[test]
fn test_assign3() {
    let expr = "let a: int = 1 + 2 + 3";
    let ast = parse(expr);
    assert!(ast.is_ok());
    let ast = ast.unwrap();
    assert!(ast.len() == 1);
    assert_eq!(ast[0].as_code(), "let a: int = ((1 + 2) + 3);");
}

#[test]
fn test_assign4() {
    let expr = "a: int = 1";
    let ast = parse(expr);
    assert!(!ast.is_ok());
}
