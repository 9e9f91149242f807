use ready_set_boole::compute_truth_table;

#[test]
fn test_compute_truth_table() {
    assert_eq!(
        compute_truth_table("0").unwrap(),
        (vec![], vec![vec![]], vec![false])
    );
    assert_eq!(
        compute_truth_table("01|1&").unwrap(),
        (vec![], vec![vec![]], vec![true])
    );
    assert_eq!(
        compute_truth_table("Z!").unwrap(),
        (vec!['Z'], vec![vec![false], vec![true]], vec![true, false])
    );
    assert_eq!(
        compute_truth_table("AB&C|").unwrap(),
        (
            vec!['A', 'B', 'C'],
            vec![
                vec![false, false, false],
                vec![false, false, true],
                vec![false, true, false],
                vec![false, true, true],
                vec![true, false, false],
                vec![true, false, true],
                vec![true, true, false],
                vec![true, true, true],
            ],
            vec![false, true, false, true, false, true, true, true]
        )
    );
}

#[test]
fn test_truth_table_sorts_variables() {
    let (variables, inputs, outputs) = compute_truth_table("CA>").unwrap();
    assert_eq!(variables, vec!['A', 'C']);
    assert_eq!(inputs.len(), 4);
    assert_eq!(outputs, vec![true, false, true, true]);
}
