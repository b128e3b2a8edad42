use intcode::machine::{with_scratch, IntcodeMachine, StepOutcome};

#[test]
fn copy_itself() {
    let program = vec![
        109, 1, 204, -1, 1001, 100, 1, 100, 1008, 100, 16, 101, 1006, 101, 0, 99,
    ];
    let input = with_scratch(&program, 100);
    let test_input = 1;

    let mut computer = IntcodeMachine::new(&input, test_input);
    computer.set_input(1);
    computer.run();

    let output: Vec<i64> = computer.outputs().clone();

    assert_eq!(output, program);
}

#[test]
fn output_16_digits() {
    let program = vec![1102, 34_915_192, 34_915_192, 7, 4, 7, 99, 0];
    let input = with_scratch(&program, 100);
    let test_input = 1;

    let mut computer = IntcodeMachine::new(&input, test_input);
    computer.set_input(1);
    computer.run();

    let output = computer.outputs()[0];

    let mut digits = 0;
    let mut power: i64 = 1;
    while power <= output {
        digits += 1;
        power *= 10;
    }
    assert_eq!(digits, 16);
}

#[test]
fn output_middle() {
    let program = vec![104, 1_125_899_906_842_624, 99];
    let input = with_scratch(&program, 100);
    let test_input = 1;

    let mut computer = IntcodeMachine::new(&input, test_input);
    computer.set_input(1);
    computer.run();

    let output = computer.outputs()[0];

    assert_eq!(output, program[1]);
}

#[test]
fn pure_halt_program_mutates_nothing() {
    let program = vec![99];
    let mut computer = IntcodeMachine::new(&program, 0);
    let outcome = computer.run();
    assert_eq!(outcome, StepOutcome::Halted);
    assert!(computer.is_halted());
    assert_eq!(computer.memory().clone(), program);
    assert!(computer.outputs().is_empty());
}

#[test]
fn relative_base_matches_position_access() {
    // adjust the base by 6, then a relative read at offset 2 reaches
    // cell 8, the same cell a position-mode read names directly
    let relative = vec![109, 6, 204, 2, 99, 0, 0, 0, 77];
    let position = vec![109, 6, 4, 8, 99, 0, 0, 0, 77];

    let mut m1 = IntcodeMachine::new(&relative, 0);
    m1.run();
    let mut m2 = IntcodeMachine::new(&position, 0);
    m2.run();

    assert_eq!(m1.outputs().clone(), vec![77]);
    assert_eq!(m2.outputs().clone(), vec![77]);
}

#[test]
fn comparison_and_jump_instructions() {
    // equal-to-8, position mode
    let program = vec![3, 9, 8, 9, 10, 9, 4, 9, 99, -1, 8];
    let mut m = IntcodeMachine::new(&program, 8);
    m.run();
    assert_eq!(m.outputs().clone(), vec![1]);

    let mut m2 = IntcodeMachine::new(&program, 7);
    m2.run();
    assert_eq!(m2.outputs().clone(), vec![0]);

    // less-than-8, immediate mode
    let program3 = vec![3, 3, 1107, -1, 8, 3, 4, 3, 99];
    let mut m3 = IntcodeMachine::new(&program3, 3);
    m3.run();
    assert_eq!(m3.outputs().clone(), vec![1]);
}

#[test]
fn unknown_opcode_faults() {
    let program = vec![98, 0, 0, 0];
    let mut m = IntcodeMachine::new(&program, 0);
    let outcome = m.run();
    assert_eq!(outcome, StepOutcome::Faulted);
}

#[test]
fn negative_address_faults() {
    // a position-mode write through a negative parameter
    let program = vec![101, 1, 2, -5, 99];
    let mut m = IntcodeMachine::new(&program, 0);
    let outcome = m.run();
    assert_eq!(outcome, StepOutcome::Faulted);
}

#[test]
fn starved_input_reports_need_input() {
    let program = vec![3, 0, 99];
    let mut m = IntcodeMachine::new(&program, 7);
    // the phase setting feeds the first pull; a second pull starves
    let program2 = vec![3, 0, 3, 0, 99];
    let mut m2 = IntcodeMachine::new(&program2, 7);
    assert_eq!(m.run(), StepOutcome::Halted);
    assert_eq!(m2.run(), StepOutcome::NeedInput);
    m2.set_input(5);
    assert_eq!(m2.run(), StepOutcome::Halted);
    assert_eq!(m2.memory()[0], 5);
}
