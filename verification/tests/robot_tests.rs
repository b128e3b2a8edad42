use intcode::robot::{solve_1, solve_2, Direction};

#[test]
fn turning_and_headings() {
    assert_eq!(Direction::Up.next(0), Direction::Left);
    assert_eq!(Direction::Up.next(1), Direction::Right);
    assert_eq!(Direction::Left.next(0), Direction::Down);
    assert_eq!(Direction::Right.next(7), Direction::Down);
}

#[test]
fn painted_cells_of_a_fixed_walk() {
    // the machine emits seven fixed pairs and halts; the agent paints
    // six distinct cells along the walk
    let program = vec![
        104, 1, 104, 0, 104, 0, 104, 0, 104, 1, 104, 0, 104, 1, 104, 0, 104, 0, 104, 1, 104, 1,
        104, 0, 104, 1, 104, 0, 99,
    ];
    let cells = solve_1(&program).unwrap();
    assert_eq!(cells.len(), 6);
}

#[test]
fn rendered_grid_is_reproducible() {
    let program = vec![104, 1, 104, 0, 104, 0, 104, 0, 104, 1, 104, 0, 99];
    let first = solve_2(&program).unwrap();
    let second = solve_2(&program).unwrap();
    assert_eq!(first, second);
    // the walk painted the origin cell white and its left neighbour
    // dark, then ended one cell behind
    assert_eq!(first[500][500], 1);
    assert_eq!(first[499][500], 0);
}

#[test]
fn walking_off_the_grid_is_an_error() {
    // zigzagging left and up drifts the agent off the field
    let mut program = Vec::new();
    for k in 0..1200 {
        program.push(104);
        program.push(1);
        program.push(104);
        program.push(k % 2);
    }
    program.push(99);
    assert_eq!(
        intcode::robot::solve_1(&program),
        Err(intcode::robot::RobotError::OffGrid)
    );
}
