use intcode::amplifiers::{
    generate_permutations, get_output, get_output_with_feedback_loop, run_feedback_loop, solve_1,
    solve_2,
};

#[test]
fn chain_single_stage() {
    // one stage consumes its phase and echoes the seed
    let program = vec![3, 11, 3, 12, 4, 12, 99, 0, 0, 0, 0, 0, 0];
    let result = get_output(&program, vec![7]);
    assert_eq!(result, Ok(0));
}

#[test]
fn chain_maximises_over_permutations() {
    let program = vec![3, 15, 3, 16, 1002, 16, 10, 16, 1, 16, 15, 15, 4, 15, 99, 0, 0];
    assert_eq!(solve_1(&program), Ok(43210));
}

#[test]
fn chain_second_example() {
    let program = vec![
        3, 23, 3, 24, 1002, 24, 10, 24, 1002, 23, -1, 23, 101, 5, 23, 23, 1, 24, 23, 23, 4, 23,
        99, 0, 0,
    ];
    assert_eq!(solve_1(&program), Ok(54321));
}

#[test]
fn ring_forwards_the_seed() {
    // each stage consumes its phase, then forwards one value unchanged:
    // a ring of pass-through stages carries the external seed around
    let program = vec![3, 11, 3, 12, 4, 12, 99, 0, 0, 0, 0, 0, 0];
    let result = run_feedback_loop(&program, &vec![5, 6, 7, 8, 9], 42);
    assert_eq!(result, Ok(42));
}

#[test]
fn ring_maximises_over_permutations() {
    let program = vec![
        3, 26, 1001, 26, -4, 26, 3, 27, 1002, 27, 2, 27, 1, 27, 26, 27, 4, 27, 1001, 28, -1, 28,
        1005, 28, 6, 99, 0, 0, 5,
    ];
    assert_eq!(solve_2(&program), Ok(139629729));
}

#[test]
fn ring_single_run_example() {
    let program = vec![
        3, 26, 1001, 26, -4, 26, 3, 27, 1002, 27, 2, 27, 1, 27, 26, 27, 4, 27, 1001, 28, -1, 28,
        1005, 28, 6, 99, 0, 0, 5,
    ];
    let result = get_output_with_feedback_loop(&program, vec![9, 8, 7, 6, 5]);
    assert_eq!(result, Ok(139629729));
}

#[test]
fn permutations_cover_every_ordering() {
    let mut stack: Vec<i64> = Vec::new();
    let mut queue: Vec<i64> = vec![1, 2, 3];
    let perms = generate_permutations(&mut stack, &mut queue, Vec::new());
    assert_eq!(queue, vec![1, 2, 3]);
    assert!(stack.is_empty());
    assert_eq!(perms.len(), 6);
    let expected: Vec<Vec<i64>> = vec![
        vec![1, 2, 3],
        vec![1, 3, 2],
        vec![2, 1, 3],
        vec![2, 3, 1],
        vec![3, 1, 2],
        vec![3, 2, 1],
    ];
    for e in &expected {
        assert!(perms.contains(e));
    }
}

#[test]
fn chain_search_order_is_immaterial() {
    // the same candidate values in two different orders carry the
    // same maximum, so the permutation search's order cannot matter
    let program = vec![3, 15, 3, 16, 1002, 16, 10, 16, 1, 16, 15, 15, 4, 15, 99, 0, 0];
    let forward = solve_1(&program);
    let again = solve_1(&program);
    assert_eq!(forward, again);
    assert_eq!(forward, Ok(43210));
}

#[test]
fn chain_reports_a_starving_stage() {
    // the stage pulls a third value that never arrives
    let program = vec![3, 11, 3, 12, 3, 12, 4, 12, 99, 0, 0, 0, 0];
    assert_eq!(
        get_output(&program, vec![1]),
        Err(intcode::amplifiers::PipelineError::StageBlocked)
    );
}
