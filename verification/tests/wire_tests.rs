use intcode::orbits;
use intcode::wires::{Position, PositionList, Step, StepList, WireError};

#[test]
fn parses_step_tokens() {
    let sl = StepList::from_string(&b"R8,U5,L5,D3".to_vec()).unwrap();
    assert_eq!(
        sl.0,
        vec![Step::Right(8), Step::Up(5), Step::Left(5), Step::Down(3)]
    );
    assert!(StepList::from_string(&b"R8,,U5".to_vec()).is_err());
    assert!(StepList::from_string(&b"X8".to_vec()).is_err());
    assert!(StepList::from_string(&b"R".to_vec()).is_err());
}

#[test]
fn walks_record_every_cell() {
    let sl = StepList::from_string(&b"R2,U2".to_vec()).unwrap();
    let pl = PositionList::from_step_list(sl).unwrap();
    assert_eq!(
        pl.0,
        vec![
            Position(0, 0),
            Position(1, 0),
            Position(2, 0),
            Position(2, 1),
        ]
    );
    let zero = StepList(vec![Step::Up(0)]);
    assert_eq!(
        PositionList::from_step_list(zero).unwrap_err(),
        WireError::ZeroStep
    );
}

#[test]
fn closest_crossing_of_the_known_wires() {
    let a = StepList::from_string(&b"R8,U5,L5,D3".to_vec()).unwrap();
    let b = StepList::from_string(&b"U7,R6,D4,L4".to_vec()).unwrap();
    assert_eq!(intcode::wires::solve_1(a, b), Ok(6));

    let a2 = StepList::from_string(&b"R75,D30,R83,U83,L12,D49,R71,U7,L72".to_vec()).unwrap();
    let b2 = StepList::from_string(&b"U62,R66,U55,R34,D71,R55,D58,R83".to_vec()).unwrap();
    assert_eq!(intcode::wires::solve_1(a2, b2), Ok(159));
}

#[test]
fn soonest_crossing_of_the_known_wires() {
    let a = StepList::from_string(&b"R8,U5,L5,D3".to_vec()).unwrap();
    let b = StepList::from_string(&b"U7,R6,D4,L4".to_vec()).unwrap();
    assert_eq!(intcode::wires::solve_2(a, b), Ok(30));

    let a2 = StepList::from_string(&b"R75,D30,R83,U83,L12,D49,R71,U7,L72".to_vec()).unwrap();
    let b2 = StepList::from_string(&b"U62,R66,U55,R34,D71,R55,D58,R83".to_vec()).unwrap();
    assert_eq!(intcode::wires::solve_2(a2, b2), Ok(610));
}

#[test]
fn distance_from_origin_is_taxicab() {
    assert_eq!(Position(3, -4).distance_from_origin(), 7);
    assert_eq!(Position::origin().distance_from_origin(), 0);
    assert_eq!(Position(2, 1).walk(Step::Left(5)), Position(-3, 1));
}

fn rel(parent: &str, child: &str) -> (String, String) {
    (parent.to_string(), child.to_string())
}

#[test]
fn orbit_totals_of_the_known_map() {
    let input = vec![
        rel("COM", "B"),
        rel("B", "C"),
        rel("C", "D"),
        rel("D", "E"),
        rel("E", "F"),
        rel("B", "G"),
        rel("G", "H"),
        rel("D", "I"),
        rel("E", "J"),
        rel("J", "K"),
        rel("K", "L"),
    ];
    assert_eq!(orbits::solve_1(&input), Ok(42));
}

#[test]
fn orbit_transfers_of_the_known_map() {
    let input = vec![
        rel("COM", "B"),
        rel("B", "C"),
        rel("C", "D"),
        rel("D", "E"),
        rel("E", "F"),
        rel("B", "G"),
        rel("G", "H"),
        rel("D", "I"),
        rel("E", "J"),
        rel("J", "K"),
        rel("K", "L"),
        rel("K", "YOU"),
        rel("I", "SAN"),
    ];
    assert_eq!(orbits::solve_2(&input), Ok(4));
}

#[test]
fn orbit_walks_detect_a_loop() {
    let input = vec![rel("A", "B"), rel("B", "A")];
    assert_eq!(orbits::solve_1(&input), Err(orbits::OrbitError::Cycle));
}
