use ready_set_boole::eval_formula;

#[test]
fn test_eval_formula_unary() {
    assert!(!eval_formula("0"));
    assert!(eval_formula("1"));
    assert!(eval_formula("0!"));
    assert!(!eval_formula("1!"));
}

#[test]
fn test_eval_formula_binary() {
    assert!(!eval_formula("00|"));
    assert!(eval_formula("01|"));
    assert!(eval_formula("10|"));
    assert!(eval_formula("11|"));

    assert!(!eval_formula("00&"));
    assert!(!eval_formula("01&"));
    assert!(!eval_formula("10&"));
    assert!(eval_formula("11&"));

    assert!(!eval_formula("00^"));
    assert!(eval_formula("01^"));
    assert!(eval_formula("10^"));
    assert!(!eval_formula("11^"));

    assert!(eval_formula("00>"));
    assert!(eval_formula("01>"));
    assert!(!eval_formula("10>"));
    assert!(eval_formula("11>"));

    assert!(eval_formula("00="));
    assert!(!eval_formula("01="));
    assert!(!eval_formula("10="));
    assert!(eval_formula("11="));
}

#[test]
fn test_eval_formula_complex() {
    assert!(eval_formula("10|1&"));
    assert!(eval_formula("1011||="));
    assert!(eval_formula("1!1|"));
    assert!(eval_formula("111^^"));
    assert!(!eval_formula("1111^^^"));
    assert!(!eval_formula("000=="));
    assert!(eval_formula("111=="));
}

#[test]
fn test_eval_formula_two_material_implications() {
    assert!(eval_formula("000>>"));
    assert!(eval_formula("001>>"));
    assert!(eval_formula("010>>"));
    assert!(eval_formula("011>>"));
    assert!(eval_formula("100>>"));
    assert!(eval_formula("101>>"));
    assert!(!eval_formula("110>>"));
    assert!(eval_formula("111>>"));
}
