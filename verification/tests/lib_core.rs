use ready_set_boole::ParseError;
use ready_set_boole::adder;
use ready_set_boole::conjunctive_normal_form;
use ready_set_boole::eval_set;
use ready_set_boole::gray_code;
use ready_set_boole::multiplier;
use ready_set_boole::negation_normal_form;
use ready_set_boole::powerset;
use ready_set_boole::sat;

use rand::RngExt;

#[test]
fn test_addition_table() {
    for i in 0..10 {
        for j in 0..10 {
            assert_eq!(adder(i, j), i + j);
        }
    }
}

#[test]
fn test_adder_random() {
    let mut rng = rand::rng();
    for _ in 0..42 {
        let i = rng.random_range(0..u32::MAX);
        let j = rng.random_range(0..u32::MAX);
        assert_eq!(adder(i, j), i.wrapping_add(j));
    }
}

#[test]
fn test_multiplication_table() {
    for i in 1..10 {
        for j in 3..10 {
            println!("{i}*{j}={}", multiplier(i, j));
            assert_eq!(multiplier(i, j), i * j);
        }
    }
}

#[test]
fn test_multiplier_random() {
    let mut rng = rand::rng();
    for _ in 0..42 {
        let i = rng.random_range(0..u32::MAX);
        let j = rng.random_range(0..u32::MAX);
        println!("{i}*{j}={}", multiplier(i, j));
        assert_eq!(multiplier(i, j), i.wrapping_mul(j));
        println!();
    }
}

#[test]
fn test_gray_code() {
    assert_eq!(gray_code(0), 0);
    assert_eq!(gray_code(1), 1);
    assert_eq!(gray_code(2), 3);
    assert_eq!(gray_code(3), 2);
    assert_eq!(gray_code(4), 6);
    assert_eq!(gray_code(5), 7);
    assert_eq!(gray_code(6), 5);
    assert_eq!(gray_code(7), 4);
    assert_eq!(gray_code(8), 12);
    assert_eq!(gray_code(9), 13);
    assert_eq!(gray_code(10), 15);
    assert_eq!(gray_code(11), 14);
    assert_eq!(gray_code(12), 10);
    assert_eq!(gray_code(13), 11);
    assert_eq!(gray_code(14), 9);
    assert_eq!(gray_code(15), 8);
    assert_eq!(gray_code(16), 24);
    assert_eq!(gray_code(17), 25);
    assert_eq!(gray_code(18), 27);
    assert_eq!(gray_code(19), 26);
    assert_eq!(gray_code(20), 30);
}

#[test]
fn test_sat() {
    assert!(!sat("0"));
    assert!(sat("1"));
    assert!(sat("0!"));
    assert!(!sat("1!"));
    assert!(sat("A"));
    assert!(!sat("AA!&"));
    assert!(sat("AB|"));
    assert!(sat("AB&"));
    assert!(!sat("AA^"));
    assert!(!sat("ABCD^^^ABCD===&"));
}

#[test]
fn lib_test_powerset() {
    assert_eq!(powerset(vec![]), vec![vec![]]);
    assert_eq!(powerset(vec![42]), vec![vec![], vec![42]]);
    assert_eq!(
        powerset(vec![1, 2, 3]),
        vec![
            vec![],
            vec![3],
            vec![2],
            vec![2, 3],
            vec![1,],
            vec![1, 3],
            vec![1, 2],
            vec![1, 2, 3],
        ]
    );
}

#[test]
fn test_eval_set_basic_operators() {
    assert_eq!(
        eval_set("AB|", vec![vec![0, 1, 2], vec![0, 3, 4]]).unwrap(),
        [0, 1, 2, 3, 4]
    );
    assert_eq!(eval_set("AB&", vec![vec![0, 1, 2], vec![0, 3, 4]]).unwrap(), [0]);
    assert_eq!(eval_set("A!", vec![vec![0, 1, 2], vec![2, 3, 4]]).unwrap(), [3, 4]);
    assert!(matches!(
        eval_set("AB^", vec![vec![0, 1, 2], vec![0, 3, 4]]),
        Err(ParseError::InvalidToken)
    ));
    assert!(matches!(
        eval_set("AB>", vec![vec![0, 1, 2], vec![0, 3, 4]]),
        Err(ParseError::InvalidToken)
    ));
}

#[test]
fn test_normal_form_strings() {
    assert_eq!(negation_normal_form("AB>"), "A!B|");
    assert_eq!(negation_normal_form("AB|!"), "A!B!&");
    assert_eq!(negation_normal_form("AB&!"), "A!B!|");
    assert_eq!(negation_normal_form("A!!"), "A");
    assert_eq!(conjunctive_normal_form("AB|!"), "A!B!&");
    assert_eq!(conjunctive_normal_form("AB&C|"), "AC|BC|&");
}
