use hare::parser::parse;

#[test]
fn test_set_value1() {
    let expr = "a = 1";
    let ast = parse(expr);
    assert!(ast.is_ok());
    let ast = ast.unwrap();

    assert!(ast.len() == 1);
    assert_eq!(ast[0].as_code(), "a = 1;");
}

#[test]
fn test_set_value2() {
    let expr = "a = 1 + 2";
    let ast = parse(expr);
    assert!(ast.is_ok());
    let ast = ast.unwrap();
    assert!(ast.len() == 1);
    assert_eq!(ast[0].as_code(), "a = (1 + 2);");
}

#[test]
fn test_set_value3() {
    let expr = "a = 1 + 2 * 3";
    let ast = parse(expr);
    assert!(ast.is_ok());
    let ast = ast.unwrap();
    assert!(ast.len() == 1);
    assert_eq!(ast[0].as_code(), "a = (1 + (2 * 3));");
}
